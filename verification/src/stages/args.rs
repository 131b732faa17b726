//! Arguments, one by one.
use crate::text::{chars_of, parse_unsigned, parse_usize};
use crate::views::strs;
use vstd::prelude::*;

verus! {

/// Whether an argument is a group of flag letters: a `-` with something behind it.
pub open spec fn is_flag_arg(s: Seq<char>) -> bool {
    s.len() > 1 && s[0] == '-'
}

/// Whether an argument is a group of flag letters.
pub fn is_flag(arg: &str) -> (r: bool)
    ensures
        r == is_flag_arg(arg@),
{
    let n: usize = arg.unicode_len();
    n > 1 && arg.get_char(0) == '-'
}

/// The argument at a position.
pub fn arg_at<'a>(args: &'a [String], i: usize) -> (r: &'a str)
    requires
        i < args@.len(),
    ensures
        r@ == strs(args@)[i as int],
{
    args[i].as_str()
}

/// The number that a string writes.
pub open spec fn number_of(s: Seq<char>) -> Option<usize> {
    match parse_unsigned(s, usize::MAX as nat) {
        Some(n) => Some(n as usize),
        None => None,
    }
}

/// Reads a number.
pub fn read_number(s: &str) -> (r: Option<usize>)
    ensures
        r == number_of(s@),
{
    parse_usize(s)
}

/// The characters of an argument after its first.
pub fn letters_of(arg: &str) -> (r: Vec<char>)
    requires
        arg@.len() >= 1,
    ensures
        r@ == arg@.skip(1),
{
    letters_from(arg, 1)
}

/// The characters of a string after its first `n`.
pub fn letters_from(arg: &str, n: usize) -> (r: Vec<char>)
    requires
        arg@.len() >= n,
    ensures
        r@ == arg@.skip(n as int),
{
    let chars = chars_of(arg);
    let tail = vstd::slice::slice_subrange(chars.as_slice(), n, chars.len());
    let r = vstd::slice::slice_to_vec(tail);
    assert(r@ =~= arg@.skip(n as int));
    r
}

/// What a string holds after its first `n` characters.
pub fn tail_of(s: &str, n: usize) -> (r: String)
    requires
        s@.len() >= n,
    ensures
        r@ == s@.skip(n as int),
{
    let letters = letters_from(s, n);
    crate::text::string_of(letters.as_slice())
}

/// The position of the first occurrence of a character, or the length.
pub open spec fn index_of_char(s: Seq<char>, c: char) -> int {
    crate::stream::sed::char_index(s, c)
}

/// The numbers on both sides of the first `sep`; a missing or unreadable number bounds nothing.
pub open spec fn number_pair(s: Seq<char>, sep: char) -> (Option<usize>, Option<usize>) {
    let k = index_of_char(s, sep);
    (number_of(s.take(k)), number_of(s.skip(k + 1)))
}

/// Reads the numbers on both sides of a separator at position `k`.
pub(crate) fn read_number_pair(s: &Vec<char>, k: usize, Ghost(sep): Ghost<char>) -> (r: (
    Option<usize>,
    Option<usize>,
))
    requires
        k < s@.len(),
        k == index_of_char(s@, sep),
    ensures
        r == number_pair(s@, sep),
{
    assert(k < s.len());
    let a = crate::text::sub_string(s, 0, k);
    let b = crate::text::sub_string(s, k + 1, s.len());
    assert(a@ =~= s@.take(k as int));
    assert(b@ =~= s@.skip(k + 1));
    (read_number(a.as_str()), read_number(b.as_str()))
}

/// Adds the arguments from a position on to a list.
pub fn push_rest(list: &mut Vec<String>, args: &[String], from: usize)
    requires
        from <= args@.len(),
    ensures
        strs(final(list)@) == strs(old(list)@) + strs(args@).skip(from as int),
{
    let ghost a = strs(args@);
    let ghost before = strs(list@);
    let mut k: usize = from;
    assert(strs(list@) =~= before + a.subrange(from as int, from as int));
    while k < args.len()
        invariant
            from <= k <= args@.len(),
            a == strs(args@),
            strs(list@) == before + a.subrange(from as int, k as int),
        decreases args@.len() - k,
    {
        let ghost now = list@;
        let item = args[k].clone();
        list.push(item);
        proof {
            crate::views::lemma_strs_push(now, item);
            assert(a[k as int] == item@);
            assert(strs(list@) =~= before + a.subrange(from as int, k + 1));
        }
        k = k + 1;
    }
    assert(a.subrange(from as int, a.len() as int) =~= a.skip(from as int));
}

} // verus!
