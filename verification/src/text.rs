//! Strings: characters, bytes and slices.
use crate::views::strs;
use vstd::prelude::*;
use vstd::std_specs::iter::IteratorSpec;
use vstd::string::StringSliceAdditionalSpecFns;
use vstd::utf8::{
    encode_utf8, encode_utf8_decode_utf8, encode_utf8_valid_utf8, is_char_boundary,
    is_char_boundary_iff_not_is_continuation_byte, is_char_boundary_start_end_of_seq, valid_utf8,
};

verus! {

/// Two strings with the same bytes are the same string.
pub proof fn lemma_utf8_injective(a: Seq<char>, b: Seq<char>)
    requires
        encode_utf8(a) == encode_utf8(b),
    ensures
        a == b,
{
    encode_utf8_decode_utf8(a);
    encode_utf8_decode_utf8(b);
}

/// The part of a string from byte `a` to byte `b`, both of them between characters.
pub fn byte_slice<'a>(s: &'a str, a: usize, b: usize) -> (r: &'a str)
    requires
        a <= b <= encode_utf8(s@).len(),
        is_char_boundary(encode_utf8(s@), a as int),
        is_char_boundary(encode_utf8(s@), b as int),
    ensures
        encode_utf8(r@) == encode_utf8(s@).subrange(a as int, b as int),
{
    let (left, _) = s.split_at(b);
    proof {
        let t = encode_utf8(s@);
        let l = encode_utf8(left@);
        encode_utf8_valid_utf8(s@);
        encode_utf8_valid_utf8(left@);
        assert(l =~= t.subrange(0, b as int));
        if a < b {
            is_char_boundary_iff_not_is_continuation_byte(t, a as int);
            is_char_boundary_iff_not_is_continuation_byte(l, a as int);
        } else {
            is_char_boundary_start_end_of_seq(l);
        }
    }
    let (_, right) = left.split_at(a);
    assert(encode_utf8(right@) =~= encode_utf8(s@).subrange(a as int, b as int));
    right
}

/// Whether two byte strings are equal.
pub fn bytes_eq(a: &[u8], b: &[u8]) -> (r: bool)
    ensures
        r == (a@ == b@),
{
    if a.len() != b.len() {
        return false;
    }
    let mut i: usize = 0;
    while i < a.len()
        invariant
            i <= a@.len(),
            a@.len() == b@.len(),
            forall|k: int| 0 <= k < i ==> a@[k] == b@[k],
        decreases a@.len() - i,
    {
        if a[i] != b[i] {
            assert(a@[i as int] != b@[i as int]);
            return false;
        }
        i = i + 1;
    }
    assert(a@ =~= b@);
    true
}

/// Whether two strings are equal.
pub fn str_eq(a: &str, b: &str) -> (r: bool)
    ensures
        r == (a@ == b@),
{
    let r = bytes_eq(a.as_bytes(), b.as_bytes());
    proof {
        if r {
            lemma_utf8_injective(a@, b@);
        }
    }
    r
}

/// Whether `part` stands in `s` at byte `i`.
pub fn bytes_at(s: &[u8], i: usize, part: &[u8]) -> (r: bool)
    ensures
        r == (i + part@.len() <= s@.len() && s@.subrange(i as int, i + part@.len()) == part@),
{
    if i > s.len() || s.len() - i < part.len() {
        return false;
    }
    let mut k: usize = 0;
    while k < part.len()
        invariant
            k <= part@.len(),
            i + part@.len() <= s@.len(),
            forall|j: int| 0 <= j < k ==> s@[i + j] == part@[j],
        decreases part@.len() - k,
    {
        assert(i + k < s.len());
        if s[i + k] != part[k] {
            assert(s@.subrange(i as int, i + part@.len())[k as int] != part@[k as int]);
            return false;
        }
        k = k + 1;
    }
    assert(s@.subrange(i as int, i + part@.len()) =~= part@);
    true
}

/// `String::push` appends one character.
pub assume_specification[ String::push ](s: &mut String, c: char)
    ensures
        final(s)@ == old(s)@.push(c),
;

/// The characters of a string.
pub fn chars_of(s: &str) -> (r: Vec<char>)
    ensures
        r@ == s@,
{
    let mut v: Vec<char> = Vec::new();
    let mut it = s.chars();
    let ghost all = s@;
    let ghost mut done: int = 0;
    loop
        invariant
            0 <= done <= all.len(),
            v@ == all.take(done),
            it.remaining() == all.skip(done),
            it.obeys_prophetic_iter_laws(),
        ensures
            v@ == all,
        decreases all.len() - done,
    {
        match it.next() {
            Some(c) => {
                v.push(c);
                proof {
                    assert(all.skip(done).drop_first() =~= all.skip(done + 1));
                    assert(all.take(done).push(all[done]) =~= all.take(done + 1));
                    done = done + 1;
                }
            },
            None => {
                assert(all.take(done) =~= all);
                break;
            },
        }
    }
    v
}

/// The string of the given characters.
pub fn string_of(chars: &[char]) -> (r: String)
    ensures
        r@ == chars@,
{
    let mut s = String::new();
    let mut i: usize = 0;
    while i < chars.len()
        invariant
            i <= chars@.len(),
            s@ == chars@.take(i as int),
        decreases chars@.len() - i,
    {
        s.push(chars[i]);
        assert(chars@.take(i as int).push(chars@[i as int]) =~= chars@.take(i + 1));
        i = i + 1;
    }
    assert(chars@.take(i as int) =~= chars@);
    s
}

/// The digit character of `d`.
pub open spec fn digit_char(d: int) -> char {
    (0x30 + d) as char
}

/// The decimal digits of `n`, without leading zeros.
pub open spec fn dec(n: nat) -> Seq<char>
    decreases n,
{
    if n < 10 {
        seq![digit_char(n as int)]
    } else {
        dec(n / 10).push(digit_char((n % 10) as int))
    }
}

/// The decimal form of an integer, with a `-` in front of a negative one.
pub open spec fn dec_int(n: int) -> Seq<char> {
    if n < 0 {
        seq!['-'] + dec((-n) as nat)
    } else {
        dec(n as nat)
    }
}

/// The decimal form of `n`.
pub fn u64_to_dec(n: u64) -> (r: String)
    ensures
        r@ == dec(n as nat),
    decreases n,
{
    let d: u8 = (n % 10) as u8;
    let c: char = (0x30 + d) as char;
    if n < 10 {
        let mut s = String::new();
        s.push(c);
        assert(s@ =~= seq![digit_char(n as int)]);
        s
    } else {
        let mut s = u64_to_dec(n / 10);
        s.push(c);
        s
    }
}

/// The decimal form of `n`.
pub fn i64_to_dec(n: i64) -> (r: String)
    ensures
        r@ == dec_int(n as int),
{
    if n < 0 {
        let m: u64 = (-(n as i128)) as u64;
        let digits = u64_to_dec(m);
        let mut s = String::new();
        s.push('-');
        s.append(digits.as_str());
        assert(s@ =~= seq!['-'] + dec((-n) as nat));
        s
    } else {
        u64_to_dec(n as u64)
    }
}

/// Whether `c` is a decimal digit.
pub open spec fn is_digit(c: char) -> bool {
    0x30 <= c as int <= 0x39
}

/// Whether `s` is one or more decimal digits.
pub open spec fn all_digits(s: Seq<char>) -> bool {
    s.len() > 0 && forall|i: int| 0 <= i < s.len() ==> is_digit(#[trigger] s[i])
}

/// The number that the digits `s` stand for.
pub open spec fn digits_value(s: Seq<char>) -> nat
    decreases s.len(),
{
    if s.len() == 0 {
        0
    } else {
        digits_value(s.drop_last()) * 10 + (s.last() as int - 0x30) as nat
    }
}

/// `s` without a leading `+`.
pub open spec fn without_plus(s: Seq<char>) -> Seq<char> {
    if s.len() > 0 && s[0] == '+' {
        s.skip(1)
    } else {
        s
    }
}

/// The number up to `max` that `s` writes in decimal, a leading `+` allowed.
pub open spec fn parse_unsigned(s: Seq<char>, max: nat) -> Option<nat> {
    let d = without_plus(s);
    if all_digits(d) && digits_value(d) <= max {
        Some(digits_value(d))
    } else {
        None
    }
}

/// The number from `min` to `max` that `s` writes in decimal, a leading sign allowed.
pub open spec fn parse_signed(s: Seq<char>, min: int, max: int) -> Option<int> {
    let negative = s.len() > 0 && s[0] == '-';
    let d = if negative {
        s.skip(1)
    } else {
        without_plus(s)
    };
    let v = if negative {
        -(digits_value(d) as int)
    } else {
        digits_value(d) as int
    };
    if all_digits(d) && min <= v <= max {
        Some(v)
    } else {
        None
    }
}

proof fn lemma_digits_value_grows(s: Seq<char>, k: int)
    requires
        0 <= k <= s.len(),
        forall|i: int| 0 <= i < s.len() ==> is_digit(#[trigger] s[i]),
    ensures
        digits_value(s.take(k)) <= digits_value(s),
    decreases s.len(),
{
    if k < s.len() {
        lemma_digits_value_grows(s.drop_last(), k);
        assert(s.drop_last().take(k) =~= s.take(k));
    } else {
        assert(s.take(k) =~= s);
    }
}

/// A number reads back from its decimal form.
pub proof fn law_dec_parses(n: nat, max: nat)
    requires
        n <= max,
    ensures
        parse_unsigned(dec(n), max) == Some(n),
{
    lemma_dec_digits(n);
    assert(is_digit(dec(n)[0]));
    assert(without_plus(dec(n)) == dec(n));
}

pub proof fn lemma_dec_digits(n: nat)
    ensures
        all_digits(dec(n)),
        digits_value(dec(n)) == n,
    decreases n,
{
    if n < 10 {
        let s = dec(n);
        assert(s[0] as int == 0x30 + n);
        assert(s.drop_last() =~= Seq::empty());
        assert(digits_value(s.drop_last()) == 0);
    } else {
        lemma_dec_digits(n / 10);
        let s = dec(n);
        let t = dec(n / 10);
        assert(s.drop_last() =~= t);
        assert(s.last() as int == 0x30 + n % 10);
        assert forall|i: int| 0 <= i < s.len() implies is_digit(#[trigger] s[i]) by {
            if i < t.len() {
                assert(s[i] == t[i]);
            }
        }
    }
}

/// The code point of a character.
pub fn char_code(c: char) -> (r: u32)
    ensures
        r == c as int,
        r <= 0x10ffff,
{
    c as u32
}

/// Reads the digits from `start` on, up to the value `max`.
fn read_digits(chars: &Vec<char>, start: usize, max: u64) -> (r: Option<u64>)
    requires
        start <= chars@.len(),
    ensures
        match r {
            Some(v) => all_digits(chars@.skip(start as int)) && v == digits_value(
                chars@.skip(start as int),
            ) && v <= max,
            None => !all_digits(chars@.skip(start as int)) || digits_value(
                chars@.skip(start as int),
            ) > max,
        },
{
    let ghost d = chars@.skip(start as int);
    if start == chars.len() {
        return None;
    }
    let mut v: u64 = 0;
    let mut i: usize = start;
    assert(d.take(0) =~= Seq::empty());
    while i < chars.len()
        invariant
            d == chars@.skip(start as int),
            start <= i <= chars@.len(),
            v == digits_value(d.take(i - start)),
            v <= max,
            forall|k: int| 0 <= k < i - start ==> is_digit(#[trigger] d[k]),
        decreases chars@.len() - i,
    {
        let c: char = chars[i];
        assert(c == d[i - start]);
        let code: u32 = char_code(c);
        if code < 0x30 || code > 0x39 {
            return None;
        }
        let x: u64 = (code - 0x30) as u64;
        proof {
            let t = d.take(i - start + 1);
            assert(t.drop_last() =~= d.take(i - start));
            assert(digits_value(t) == v * 10 + x);
            if all_digits(d) {
                lemma_digits_value_grows(d, i - start + 1);
            }
        }
        if v > (u64::MAX - x) / 10 {
            assert(v * 10 + x > u64::MAX);
            return None;
        }
        v = v * 10 + x;
        if v > max {
            return None;
        }
        i = i + 1;
    }
    assert(d.take(i - start) =~= d);
    Some(v)
}

/// Reads an unsigned number of at most `max`.
pub fn parse_u64(s: &str, max: u64) -> (r: Option<u64>)
    ensures
        match r {
            Some(v) => parse_unsigned(s@, max as nat) == Some(v as nat) && v <= max,
            None => parse_unsigned(s@, max as nat) is None,
        },
{
    let chars = chars_of(s);
    if chars.len() > 0 && chars[0] == '+' {
        read_digits(&chars, 1, max)
    } else {
        assert(chars@.skip(0) =~= chars@);
        read_digits(&chars, 0, max)
    }
}

/// Reads a `usize`.
pub fn parse_usize(s: &str) -> (r: Option<usize>)
    ensures
        match r {
            Some(v) => parse_unsigned(s@, usize::MAX as nat) == Some(v as nat),
            None => parse_unsigned(s@, usize::MAX as nat) is None,
        },
{
    match parse_u64(s, usize::MAX as u64) {
        Some(v) => Some(v as usize),
        None => None,
    }
}

/// Reads a signed number from `min` to `max`.
pub fn parse_i64(s: &str, min: i64, max: i64) -> (r: Option<i64>)
    requires
        min <= 0 <= max,
    ensures
        match r {
            Some(v) => parse_signed(s@, min as int, max as int) == Some(v as int) && min <= v <= max,
            None => parse_signed(s@, min as int, max as int) is None,
        },
{
    let chars = chars_of(s);
    if chars.len() > 0 && chars[0] == '-' {
        let limit: u64 = (-(min as i128)) as u64;
        match read_digits(&chars, 1, limit) {
            Some(v) => Some((-(v as i128)) as i64),
            None => None,
        }
    } else if chars.len() > 0 && chars[0] == '+' {
        match read_digits(&chars, 1, max as u64) {
            Some(v) => Some(v as i64),
            None => None,
        }
    } else {
        assert(chars@.skip(0) =~= chars@);
        match read_digits(&chars, 0, max as u64) {
            Some(v) => Some(v as i64),
            None => None,
        }
    }
}

/// Whether `s` starts with `p`.
pub open spec fn starts_with(s: Seq<char>, p: Seq<char>) -> bool {
    p.len() <= s.len() && s.take(p.len() as int) == p
}

/// Whether `s` ends with `p`.
pub open spec fn ends_with(s: Seq<char>, p: Seq<char>) -> bool {
    p.len() <= s.len() && s.skip(s.len() - p.len()) == p
}

/// The strings, one after the other, with `sep` between them.
pub open spec fn joined(parts: Seq<Seq<char>>, sep: Seq<char>) -> Seq<char>
    decreases parts.len(),
{
    if parts.len() == 0 {
        Seq::empty()
    } else if parts.len() == 1 {
        parts[0]
    } else {
        joined(parts.drop_last(), sep) + sep + parts.last()
    }
}

/// Joins strings with a separator.
pub fn join(parts: &Vec<String>, sep: &str) -> (r: String)
    ensures
        r@ == joined(strs(parts@), sep@),
{
    let mut s = String::new();
    let mut i: usize = 0;
    assert(strs(parts@).take(0) =~= Seq::empty());
    while i < parts.len()
        invariant
            i <= parts@.len(),
            s@ == joined(strs(parts@).take(i as int), sep@),
        decreases parts@.len() - i,
    {
        let ghost next = strs(parts@).take(i + 1);
        assert(next.drop_last() =~= strs(parts@).take(i as int));
        if i > 0 {
            s.append(sep);
        }
        s.append(parts[i].as_str());
        assert(s@ =~= joined(next, sep@));
        i = i + 1;
    }
    assert(strs(parts@).take(i as int) =~= strs(parts@));
    s
}

/// Whether `s` has `p` at its start.
pub fn str_starts_with(s: &str, p: &str) -> (r: bool)
    ensures
        r == starts_with(s@, p@),
{
    let a = chars_of(s);
    let b = chars_of(p);
    if b.len() > a.len() {
        return false;
    }
    chars_at(&a, 0, &b)
}

/// Whether `s` has `p` at its end.
pub fn str_ends_with(s: &str, p: &str) -> (r: bool)
    ensures
        r == ends_with(s@, p@),
{
    let a = chars_of(s);
    let b = chars_of(p);
    if b.len() > a.len() {
        return false;
    }
    let r = chars_at(&a, a.len() - b.len(), &b);
    assert(a@.skip(a@.len() - b@.len()) =~= a@.subrange(a@.len() - b@.len(), a@.len() as int));
    r
}

/// Whether `p` stands in `s` at position `at`.
pub fn chars_at(s: &Vec<char>, at: usize, p: &Vec<char>) -> (r: bool)
    requires
        at + p@.len() <= s@.len(),
    ensures
        r == (s@.subrange(at as int, at + p@.len()) == p@),
        at == 0 ==> r == starts_with(s@, p@),
{
    assert(s@.subrange(0, p@.len() as int) =~= s@.take(p@.len() as int));
    let mut i: usize = 0;
    while i < p.len()
        invariant
            i <= p@.len(),
            at + p@.len() <= s@.len(),
            forall|k: int| 0 <= k < i ==> s@[at + k] == p@[k],
        decreases p@.len() - i,
    {
        assert(at + i < s.len());
        if s[at + i] != p[i] {
            assert(s@.subrange(at as int, at + p@.len())[i as int] != p@[i as int]);
            return false;
        }
        i = i + 1;
    }
    assert(s@.subrange(at as int, at + p@.len()) =~= p@);
    true
}

/// A copy of a list of strings.
pub fn clone_strings(v: &Vec<String>) -> (r: Vec<String>)
    ensures
        strs(r@) == strs(v@),
        r@.len() == v@.len(),
{
    let mut r: Vec<String> = Vec::new();
    let mut i: usize = 0;
    while i < v.len()
        invariant
            i <= v@.len(),
            r@.len() == i,
            forall|k: int| 0 <= k < i ==> (#[trigger] r@[k])@ == v@[k]@,
        decreases v@.len() - i,
    {
        r.push(v[i].clone());
        i = i + 1;
    }
    assert(strs(r@) =~= strs(v@));
    r
}

/// The upper case form of an ASCII letter; any other character is itself.
pub open spec fn upper_char(c: char) -> char {
    if 0x61 <= c as int <= 0x7a {
        (c as int - 0x20) as char
    } else {
        c
    }
}

/// `s` with its ASCII letters in upper case.
pub open spec fn upper_ascii(s: Seq<char>) -> Seq<char> {
    s.map_values(|c: char| upper_char(c))
}

/// Turns the ASCII letters of a string into upper case.
pub fn to_upper_ascii(s: &str) -> (r: String)
    ensures
        r@ == upper_ascii(s@),
{
    let chars = chars_of(s);
    let mut r = String::new();
    let mut i: usize = 0;
    assert(r@ =~= upper_ascii(s@).take(0));
    while i < chars.len()
        invariant
            i <= chars@.len(),
            chars@ == s@,
            r@ == upper_ascii(s@).take(i as int),
        decreases chars@.len() - i,
    {
        let c: char = chars[i];
        let code: u32 = char_code(c);
        if code >= 0x61 && code <= 0x7a {
            let b: u8 = (code - 0x20) as u8;
            r.push(b as char);
        } else {
            r.push(c);
        }
        assert(upper_ascii(s@).take(i + 1) =~= upper_ascii(s@).take(i as int).push(upper_char(c)));
        i = i + 1;
    }
    assert(upper_ascii(s@).take(i as int) =~= upper_ascii(s@));
    r
}

/// Whether `c` is white space.
pub open spec fn is_space(c: char) -> bool {
    let n = c as int;
    0x09 <= n <= 0x0d || n == 0x20 || n == 0x85 || n == 0xa0 || n == 0x1680 || 0x2000 <= n <= 0x200a
        || n == 0x2028 || n == 0x2029 || n == 0x202f || n == 0x205f || n == 0x3000
}

/// `s` without the white space at its start.
pub open spec fn trim_start(s: Seq<char>) -> Seq<char>
    decreases s.len(),
{
    if s.len() > 0 && is_space(s[0]) {
        trim_start(s.skip(1))
    } else {
        s
    }
}

/// `s` without the white space at its end.
pub open spec fn trim_end(s: Seq<char>) -> Seq<char>
    decreases s.len(),
{
    if s.len() > 0 && is_space(s.last()) {
        trim_end(s.drop_last())
    } else {
        s
    }
}

/// `s` without the white space at either end.
pub open spec fn trimmed(s: Seq<char>) -> Seq<char> {
    trim_end(trim_start(s))
}

/// Whether `c` is white space.
pub fn is_whitespace(c: char) -> (r: bool)
    ensures
        r == is_space(c),
{
    let n: u32 = char_code(c);
    (n >= 0x09 && n <= 0x0d) || n == 0x20 || n == 0x85 || n == 0xa0 || n == 0x1680 || (n >= 0x2000
        && n <= 0x200a) || n == 0x2028 || n == 0x2029 || n == 0x202f || n == 0x205f || n == 0x3000
}

/// Takes the white space off both ends of a string.
pub fn trim(s: &str) -> (r: String)
    ensures
        r@ == trimmed(s@),
{
    let chars = chars_of(s);
    let mut a: usize = 0;
    assert(s@.skip(0) =~= s@);
    while a < chars.len() && is_whitespace(chars[a])
        invariant
            a <= chars@.len(),
            chars@ == s@,
            trim_start(s@) == trim_start(s@.skip(a as int)),
        decreases chars@.len() - a,
    {
        assert(s@.skip(a as int).skip(1) =~= s@.skip(a + 1));
        a = a + 1;
    }
    let ghost t = s@.skip(a as int);
    let mut b: usize = chars.len();
    assert(t =~= s@.subrange(a as int, b as int));
    while b > a && is_whitespace(chars[b - 1])
        invariant
            a <= b <= chars@.len(),
            chars@ == s@,
            trim_end(t) == trim_end(s@.subrange(a as int, b as int)),
        decreases b,
    {
        assert(s@.subrange(a as int, b as int).drop_last() =~= s@.subrange(a as int, b - 1));
        b = b - 1;
    }
    string_of(vstd::slice::slice_subrange(chars.as_slice(), a, b))
}

/// The error of `str::from_utf8`.
#[verifier::external_type_specification]
#[verifier::external_body]
pub struct ExUtf8Error(core::str::Utf8Error);

/// `str::from_utf8` takes exactly the valid UTF-8 strings, and keeps their bytes.
pub assume_specification<'a>[ core::str::from_utf8 ](v: &'a [u8]) -> (r: Result<
    &'a str,
    core::str::Utf8Error,
>)
    ensures
        r is Ok <==> valid_utf8(v@),
        r matches Ok(s) ==> encode_utf8(s@) == v@,
;

/// What `String::from_utf8_lossy` makes of a byte string.
pub uninterp spec fn utf8_lossy(v: Seq<u8>) -> Seq<char>;

/// `String::from_utf8_lossy` keeps the bytes of a valid UTF-8 string; invalid parts are
/// replaced in a way that depends on the bytes alone.
#[verifier::external_body]
pub(crate) fn from_utf8_lossy(v: &[u8]) -> (r: String)
    ensures
        r@ == utf8_lossy(v@),
        valid_utf8(v@) ==> encode_utf8(r@) == v@,
{
    String::from_utf8_lossy(v).into_owned()
}

/// The bytes of a concatenation are the concatenated bytes.
pub proof fn lemma_utf8_concat(a: Seq<char>, b: Seq<char>)
    ensures
        encode_utf8(a + b) == encode_utf8(a) + encode_utf8(b),
    decreases a.len(),
{
    if a.len() == 0 {
        assert(a + b =~= b);
        assert(encode_utf8(a) + encode_utf8(b) =~= encode_utf8(b));
    } else {
        assert((a + b).drop_first() =~= a.drop_first() + b);
        lemma_utf8_concat(a.drop_first(), b);
        assert(encode_utf8(a + b) =~= encode_utf8(a) + encode_utf8(b));
    }
}

/// `s` with spaces in front, so that it has at least `width` characters.
pub open spec fn padded(s: Seq<char>, width: nat) -> Seq<char> {
    if s.len() < width {
        Seq::new((width - s.len()) as nat, |i: int| ' ') + s
    } else {
        s
    }
}

/// Puts spaces in front of a string until it has at least `width` characters.
pub fn pad_left(s: &str, width: usize) -> (r: String)
    ensures
        r@ == padded(s@, width as nat),
{
    let n: usize = s.unicode_len();
    let mut r = String::new();
    let mut i: usize = n;
    assert(n < width ==> r@ =~= Seq::new((i - n) as nat, |i: int| ' '));
    while i < width
        invariant
            n <= i,
            n < width ==> i <= width,
            n < width ==> r@ == Seq::new((i - n) as nat, |i: int| ' '),
            n >= width ==> r@.len() == 0,
        decreases width - i,
    {
        r.push(' ');
        i = i + 1;
        assert(r@ =~= Seq::new((i - n) as nat, |i: int| ' '));
    }
    r.append(s);
    assert(r@ =~= padded(s@, width as nat));
    r
}

/// The pieces of `s` between the occurrences of `d`.
pub open spec fn split_on(s: Seq<char>, d: char) -> Seq<Seq<char>>
    decreases s.len(),
{
    if s.len() == 0 {
        seq![Seq::empty()]
    } else {
        let r = split_on(s.drop_last(), d);
        if s.last() == d {
            r.push(Seq::empty())
        } else {
            r.drop_last().push(r.last().push(s.last()))
        }
    }
}

pub proof fn lemma_split_on_nonempty(s: Seq<char>, d: char)
    ensures
        split_on(s, d).len() >= 1,
    decreases s.len(),
{
    if s.len() > 0 {
        lemma_split_on_nonempty(s.drop_last(), d);
    }
}

/// Splits a string at each occurrence of a character.
pub fn split_char(s: &str, d: char) -> (r: Vec<String>)
    ensures
        strs(r@) == split_on(s@, d),
        r@.len() >= 1,
{
    broadcast use crate::views::lemma_strs_push;

    let chars = chars_of(s);
    let mut result: Vec<String> = Vec::new();
    let mut current = String::new();
    let mut i: usize = 0;
    proof {
        assert(s@.take(0) =~= Seq::empty());
        assert(current@ =~= Seq::empty());
        assert(strs(result@).push(current@) =~= split_on(s@.take(0), d));
    }
    while i < chars.len()
        invariant
            i <= chars@.len(),
            chars@ == s@,
            strs(result@).push(current@) == split_on(s@.take(i as int), d),
        decreases chars@.len() - i,
    {
        let ghost before = strs(result@).push(current@);
        let c: char = chars[i];
        proof {
            assert(s@.take(i + 1).drop_last() =~= s@.take(i as int));
            assert(before.drop_last() =~= strs(result@));
        }
        if c == d {
            result.push(current);
            current = String::new();
            assert(strs(result@) =~= before);
        } else {
            current.push(c);
        }
        i = i + 1;
    }
    assert(s@.take(i as int) =~= s@);
    result.push(current);
    result
}

/// Whether a string holds a character.
pub fn contains_char(s: &str, c: char) -> (r: bool)
    ensures
        r == s@.contains(c),
{
    let chars = chars_of(s);
    let mut i: usize = 0;
    while i < chars.len()
        invariant
            i <= chars@.len(),
            chars@ == s@,
            forall|k: int| 0 <= k < i ==> s@[k] != c,
        decreases chars@.len() - i,
    {
        if chars[i] == c {
            assert(s@[i as int] == c);
            return true;
        }
        i = i + 1;
    }
    false
}

/// The position of the first occurrence of `p` in `s` at `i` or later.
pub open spec fn find_chars(s: Seq<char>, p: Seq<char>, i: int) -> Option<int>
    decreases s.len() - i + 1,
{
    if i < 0 || i + p.len() > s.len() {
        None
    } else if s.subrange(i, i + p.len()) == p {
        Some(i)
    } else {
        find_chars(s, p, i + 1)
    }
}

pub proof fn lemma_find_chars(s: Seq<char>, p: Seq<char>, i: int)
    requires
        0 <= i,
    ensures
        find_chars(s, p, i) matches Some(k) ==> i <= k && k + p.len() <= s.len() && s.subrange(
            k,
            k + p.len(),
        ) == p,
    decreases s.len() - i + 1,
{
    if i + p.len() <= s.len() && s.subrange(i, i + p.len()) != p {
        lemma_find_chars(s, p, i + 1);
    }
}

/// Finds the first occurrence of `p` in `s` at `start` or later.
pub fn find_in(s: &Vec<char>, p: &Vec<char>, start: usize) -> (r: Option<usize>)
    requires
        start <= s@.len(),
    ensures
        match r {
            Some(k) => find_chars(s@, p@, start as int) == Some(k as int) && start <= k && k
                + p@.len() <= s@.len(),
            None => find_chars(s@, p@, start as int) is None,
        },
{
    if p.len() > s.len() - start {
        return None;
    }
    let last: usize = s.len() - p.len();
    let mut i: usize = start;
    loop
        invariant
            start <= i <= last,
            last + p@.len() == s@.len(),
            find_chars(s@, p@, start as int) == find_chars(s@, p@, i as int),
        decreases last - i,
    {
        if chars_at(s, i, p) {
            return Some(i);
        }
        if i == last {
            assert(find_chars(s@, p@, last + 1) is None);
            return None;
        }
        i = i + 1;
    }
}

/// What `char::is_alphanumeric` says of a character.
pub uninterp spec fn is_alnum(c: char) -> bool;

/// `char::is_alphanumeric` depends on the character alone.
#[verifier::external_body]
pub(crate) fn char_is_alphanumeric(c: char) -> (r: bool)
    ensures
        r == is_alnum(c),
{
    c.is_alphanumeric()
}

/// What `str::to_lowercase` makes of a string.
pub uninterp spec fn lowercased(s: Seq<char>) -> Seq<char>;

/// `str::to_lowercase` depends on the string alone.
#[verifier::external_body]
pub(crate) fn to_lowercase(s: &str) -> (r: String)
    ensures
        r@ == lowercased(s@),
{
    s.to_lowercase()
}

/// What `str::to_uppercase` makes of a string.
pub uninterp spec fn uppercased(s: Seq<char>) -> Seq<char>;

/// `str::to_uppercase` depends on the string alone.
#[verifier::external_body]
pub(crate) fn to_uppercase(s: &str) -> (r: String)
    ensures
        r@ == uppercased(s@),
{
    s.to_uppercase()
}

/// `s` with every occurrence of `p`, from left to right and not overlapping, replaced by `r`.
/// The empty string occurs between all characters and at both ends.
pub open spec fn replace_all(s: Seq<char>, p: Seq<char>, r: Seq<char>) -> Seq<char>
    decreases s.len(),
    via replace_all_terminates
{
    if p.len() == 0 {
        if s.len() == 0 {
            r
        } else {
            r.push(s[0]) + replace_all(s.skip(1), p, r)
        }
    } else {
        match find_chars(s, p, 0) {
            Some(i) => s.take(i) + r + replace_all(s.skip(i + p.len()), p, r),
            None => s,
        }
    }
}

#[via_fn]
proof fn replace_all_terminates(s: Seq<char>, p: Seq<char>, r: Seq<char>) {
    lemma_find_chars(s, p, 0);
}

/// `s` with the first occurrence of `p` replaced by `r`.
pub open spec fn replace_first(s: Seq<char>, p: Seq<char>, r: Seq<char>) -> Seq<char> {
    match find_chars(s, p, 0) {
        Some(i) => s.take(i) + r + s.skip(i + p.len()),
        None => s,
    }
}

proof fn lemma_find_chars_shift(s: Seq<char>, p: Seq<char>, a: int, i: int)
    requires
        0 <= a,
        0 <= i,
        a <= s.len(),
    ensures
        find_chars(s, p, a + i) == match find_chars(s.skip(a), p, i) {
            Some(k) => Some(a + k),
            None => None,
        },
    decreases s.len() - a - i + 1,
{
    let t = s.skip(a);
    if i + p.len() <= t.len() {
        assert(t.subrange(i, i + p.len()) =~= s.subrange(a + i, a + i + p.len()));
        if t.subrange(i, i + p.len()) != p {
            lemma_find_chars_shift(s, p, a, i + 1);
        }
    }
}

fn push_chars(out: &mut String, chars: &Vec<char>, a: usize, b: usize)
    requires
        a <= b <= chars@.len(),
    ensures
        final(out)@ == old(out)@ + chars@.subrange(a as int, b as int),
{
    let ghost before = out@;
    let mut i: usize = a;
    assert(out@ =~= before + chars@.subrange(a as int, a as int));
    while i < b
        invariant
            a <= i <= b,
            b <= chars@.len(),
            out@ == before + chars@.subrange(a as int, i as int),
        decreases b - i,
    {
        out.push(chars[i]);
        assert(out@ =~= before + chars@.subrange(a as int, i + 1));
        i = i + 1;
    }
}

/// Replaces the first occurrence of `p`.
pub fn replace_once(s: &str, p: &str, r: &str) -> (res: String)
    ensures
        res@ == replace_first(s@, p@, r@),
{
    let chars = chars_of(s);
    let pat = chars_of(p);
    match find_in(&chars, &pat, 0) {
        Some(i) => {
            let mut out = String::new();
            push_chars(&mut out, &chars, 0, i);
            out.append(r);
            assert(i + pat@.len() <= chars.len());
            push_chars(&mut out, &chars, i + pat.len(), chars.len());
            assert(out@ =~= replace_first(s@, p@, r@));
            out
        },
        None => s.to_owned(),
    }
}

/// Replaces every occurrence of `p`.
pub fn replace_every(s: &str, p: &str, r: &str) -> (res: String)
    ensures
        res@ == replace_all(s@, p@, r@),
{
    let chars = chars_of(s);
    let pat = chars_of(p);
    let mut out = String::new();
    let mut at: usize = 0;
    assert(s@.skip(0) =~= s@);
    assert(out@ + replace_all(s@, p@, r@) =~= replace_all(s@, p@, r@));
    if pat.len() == 0 {
        while at < chars.len()
            invariant
                at <= chars@.len(),
                chars@ == s@,
                p@.len() == 0,
                out@ + replace_all(s@.skip(at as int), p@, r@) == replace_all(s@, p@, r@),
            decreases chars@.len() - at,
        {
            let ghost before = out@;
            let ghost rest = s@.skip(at as int);
            out.append(r);
            out.push(chars[at]);
            proof {
                assert(rest.skip(1) =~= s@.skip(at + 1));
                assert(out@ + replace_all(s@.skip(at + 1), p@, r@) =~= before + replace_all(
                    rest,
                    p@,
                    r@,
                ));
            }
            at = at + 1;
        }
        out.append(r);
        return out;
    }
    loop
        invariant
            at <= chars@.len(),
            chars@ == s@,
            pat@ == p@,
            p@.len() > 0,
            out@ + replace_all(s@.skip(at as int), p@, r@) == replace_all(s@, p@, r@),
        decreases chars@.len() - at,
    {
        let ghost before = out@;
        let ghost rest = s@.skip(at as int);
        proof {
            lemma_find_chars_shift(s@, p@, at as int, 0);
        }
        match find_in(&chars, &pat, at) {
            Some(i) => {
                push_chars(&mut out, &chars, at, i);
                out.append(r);
                assert(i + pat@.len() <= chars.len());
                let next: usize = i + pat.len();
                proof {
                    assert(rest.take(i - at) =~= s@.subrange(at as int, i as int));
                    assert(rest.skip(i - at + p@.len()) =~= s@.skip(next as int));
                    assert(out@ + replace_all(s@.skip(next as int), p@, r@) =~= before
                        + replace_all(rest, p@, r@));
                }
                at = next;
            },
            None => {
                push_chars(&mut out, &chars, at, chars.len());
                assert(out@ =~= before + rest);
                return out;
            },
        }
    }
}

/// Takes the white space off the start of a string.
pub fn trim_left(s: &str) -> (r: String)
    ensures
        r@ == trim_start(s@),
{
    let chars = chars_of(s);
    let mut a: usize = 0;
    assert(s@.skip(0) =~= s@);
    while a < chars.len() && is_whitespace(chars[a])
        invariant
            a <= chars@.len(),
            chars@ == s@,
            trim_start(s@) == trim_start(s@.skip(a as int)),
        decreases chars@.len() - a,
    {
        assert(s@.skip(a as int).skip(1) =~= s@.skip(a + 1));
        a = a + 1;
    }
    let tail = vstd::slice::slice_subrange(chars.as_slice(), a, chars.len());
    assert(tail@ =~= s@.skip(a as int));
    string_of(tail)
}

/// The part of a string from character `a` to character `b`.
pub fn sub_string(s: &Vec<char>, a: usize, b: usize) -> (r: String)
    requires
        a <= b <= s@.len(),
    ensures
        r@ == s@.subrange(a as int, b as int),
{
    string_of(vstd::slice::slice_subrange(s.as_slice(), a, b))
}

/// The position of the first `c`, or the length where there is none.
pub open spec fn char_pos(s: Seq<char>, c: char) -> int
    decreases s.len(),
{
    if s.len() == 0 || s[0] == c {
        0
    } else {
        1 + char_pos(s.skip(1), c)
    }
}

pub proof fn lemma_char_pos(s: Seq<char>, c: char)
    ensures
        0 <= char_pos(s, c) <= s.len(),
        char_pos(s, c) < s.len() ==> s[char_pos(s, c)] == c,
        forall|i: int| 0 <= i < char_pos(s, c) ==> s[i] != c,
    decreases s.len(),
{
    if s.len() > 0 && s[0] != c {
        let t = s.skip(1);
        lemma_char_pos(t, c);
        assert forall|i: int| 0 <= i < char_pos(s, c) implies s[i] != c by {
            if i > 0 {
                assert(t[i - 1] == s[i]);
            }
        }
    }
}

/// A text up to the first `c`.
pub open spec fn before_char(s: Seq<char>, c: char) -> Seq<char> {
    s.take(char_pos(s, c))
}

/// A text after the first `c`, where it has one.
pub open spec fn after_char(s: Seq<char>, c: char) -> Option<Seq<char>> {
    if char_pos(s, c) < s.len() {
        Some(s.skip(char_pos(s, c) + 1))
    } else {
        None
    }
}

/// Splits a text at the first `c`.
pub fn split_at_char(s: &str, c: char) -> (r: (String, Option<String>))
    ensures
        r.0@ == before_char(s@, c),
        match r.1 {
            Some(t) => after_char(s@, c) == Some(t@),
            None => after_char(s@, c) is None,
        },
{
    let chars = chars_of(s);
    let mut i: usize = 0;
    assert(s@.skip(0) =~= s@);
    while i < chars.len() && chars[i] != c
        invariant
            i <= chars@.len(),
            chars@ == s@,
            char_pos(s@, c) == i + char_pos(s@.skip(i as int), c),
        decreases chars@.len() - i,
    {
        assert(s@.skip(i as int).skip(1) =~= s@.skip(i + 1));
        i = i + 1;
    }
    let name = sub_string(&chars, 0, i);
    assert(s@.subrange(0, i as int) =~= s@.take(i as int));
    if i < chars.len() {
        let rest = sub_string(&chars, i + 1, chars.len());
        assert(s@.subrange(i + 1, s@.len() as int) =~= s@.skip(i + 1));
        (name, Some(rest))
    } else {
        (name, None)
    }
}

} // verus!
