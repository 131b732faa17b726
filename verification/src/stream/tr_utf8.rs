//! Decoding UTF-8 that comes byte by byte.
use crate::text::chars_of;
use vstd::prelude::*;
use vstd::slice::slice_subrange;
use vstd::utf8::{
    codepoint_width_2, codepoint_width_3, codepoint_width_4, decode_first_scalar, decode_utf8,
    encode_utf8, encode_utf8_decode_utf8, encode_utf8_valid_utf8, length_of_first_scalar,
    pop_first_scalar, valid_first_scalar, valid_utf8,
};

verus! {

/// Whether bytes are the start of the encoding of a character, and not all of it.
pub open spec fn is_utf8_prefix(q: Seq<u8>) -> bool {
    let a = q[0];
    let b = q[1];
    let second_ok = if a == 0xe0 {
        0xa0 <= b <= 0xbf
    } else if a == 0xed {
        0x80 <= b <= 0x9f
    } else if a == 0xf0 {
        0x90 <= b <= 0xbf
    } else if a == 0xf4 {
        0x80 <= b <= 0x8f
    } else {
        0x80 <= b <= 0xbf
    };
    if q.len() == 1 {
        0xc2 <= a <= 0xf4
    } else if q.len() == 2 {
        0xe0 <= a <= 0xf4 && second_ok
    } else if q.len() == 3 {
        0xf0 <= a <= 0xf4 && second_ok && 0x80 <= q[2] <= 0xbf
    } else {
        false
    }
}

/// The length of the shortest start of `q` that is valid UTF-8: that of its first character.
pub open spec fn first_char_len(q: Seq<u8>) -> Option<int> {
    if q.len() >= 1 && valid_utf8(q.take(1)) {
        Some(1)
    } else if q.len() >= 2 && valid_utf8(q.take(2)) {
        Some(2)
    } else if q.len() >= 3 && valid_utf8(q.take(3)) {
        Some(3)
    } else if q.len() >= 4 && valid_utf8(q.take(4)) {
        Some(4)
    } else {
        None
    }
}

/// The characters that `q` holds, a replacement character for each byte that fits nowhere.
/// What may be the start of a character is left over.
pub open spec fn drained(q: Seq<u8>) -> Seq<char>
    decreases q.len(),
{
    if q.len() == 0 {
        Seq::empty()
    } else {
        match first_char_len(q) {
            Some(k) => decode_utf8(q.take(k)) + drained(q.skip(k)),
            None => if is_utf8_prefix(q) {
                Seq::empty()
            } else {
                seq!['\u{FFFD}'] + drained(q.skip(1))
            },
        }
    }
}

/// What is left over of `q`.
pub open spec fn leftover(q: Seq<u8>) -> Seq<u8>
    decreases q.len(),
{
    if q.len() == 0 {
        q
    } else {
        match first_char_len(q) {
            Some(k) => leftover(q.skip(k)),
            None => if is_utf8_prefix(q) {
                q
            } else {
                leftover(q.skip(1))
            },
        }
    }
}

fn starts_char(v: &[u8], at: usize) -> (r: bool)
    requires
        at < v@.len(),
    ensures
        r == is_utf8_prefix(v@.skip(at as int)),
{
    let ghost q = v@.skip(at as int);
    let n: usize = v.len() - at;
    let a: u8 = v[at];
    assert(q[0] == a);
    if n == 1 {
        return a >= 0xc2 && a <= 0xf4;
    }
    if n > 3 {
        return false;
    }
    let b: u8 = v[at + 1];
    assert(q[1] == b);
    let second_ok: bool = if a == 0xe0 {
        b >= 0xa0 && b <= 0xbf
    } else if a == 0xed {
        b >= 0x80 && b <= 0x9f
    } else if a == 0xf0 {
        b >= 0x90 && b <= 0xbf
    } else if a == 0xf4 {
        b >= 0x80 && b <= 0x8f
    } else {
        b >= 0x80 && b <= 0xbf
    };
    if n == 2 {
        return a >= 0xe0 && a <= 0xf4 && second_ok;
    }
    let c: u8 = v[at + 2];
    assert(q[2] == c);
    a >= 0xf0 && a <= 0xf4 && second_ok && c >= 0x80 && c <= 0xbf
}

fn first_char(v: &[u8], at: usize) -> (r: Option<(usize, Vec<char>)>)
    requires
        at < v@.len(),
    ensures
        match r {
            Some((k, chars)) => first_char_len(v@.skip(at as int)) == Some(k as int) && at + k
                <= v@.len() && k >= 1 && chars@ == decode_utf8(v@.skip(at as int).take(k as int)),
            None => first_char_len(v@.skip(at as int)) is None,
        },
{
    let ghost q = v@.skip(at as int);
    let left: usize = v.len() - at;
    let mut k: usize = 1;
    while k <= 4 && k <= left
        invariant
            1 <= k <= 5,
            k <= left + 1,
            at < v@.len(),
            left == v.len() - at,
            q == v@.skip(at as int),
            k > 1 ==> !valid_utf8(q.take(1)),
            k > 2 ==> !valid_utf8(q.take(2)),
            k > 3 ==> !valid_utf8(q.take(3)),
            k > 4 ==> !valid_utf8(q.take(4)),
        decreases 5 - k,
    {
        let part = slice_subrange(v, at, at + k);
        assert(part@ =~= q.take(k as int));
        if let Ok(s) = core::str::from_utf8(part) {
            proof {
                encode_utf8_decode_utf8(s@);
            }
            return Some((k, chars_of(s)));
        }
        k = k + 1;
    }
    None
}

/// Takes the characters out of bytes that wait, and leaves those that may be the start of one.
pub fn streaming_tr_process_utf8_chunk(pending: &mut Vec<u8>) -> (r: Vec<char>)
    ensures
        r@ == drained(old(pending)@),
        final(pending)@ == leftover(old(pending)@),
{
    let ghost q = pending@;
    let mut out: Vec<char> = Vec::new();
    let mut at: usize = 0;
    assert(q.skip(0) =~= q);
    assert(out@ + drained(q) =~= drained(q));
    while at < pending.len()
        invariant
            at <= q.len(),
            pending@ == q,
            out@ + drained(q.skip(at as int)) == drained(q),
            leftover(q.skip(at as int)) == leftover(q),
        ensures
            out@ == drained(q),
            q.skip(at as int) == leftover(q),
        decreases q.len() - at,
    {
        let ghost rest = q.skip(at as int);
        let ghost before = out@;
        match first_char(pending.as_slice(), at) {
            Some((k, mut chars)) => {
                let ghost c = chars@;
                out.append(&mut chars);
                proof {
                    assert(rest.skip(k as int) =~= q.skip(at + k));
                    assert(out@ + drained(q.skip(at + k)) =~= before + (c + drained(
                        rest.skip(k as int),
                    )));
                }
                at = at + k;
            },
            None => {
                if starts_char(pending.as_slice(), at) {
                    assert(drained(rest) =~= Seq::empty());
                    break;
                }
                out.push('\u{FFFD}');
                proof {
                    assert(rest.skip(1) =~= q.skip(at + 1));
                    assert(out@ + drained(q.skip(at + 1)) =~= before + (seq!['\u{FFFD}'] + drained(
                        rest.skip(1),
                    )));
                }
                at = at + 1;
            },
        }
    }
    let mut left: Vec<u8> = Vec::new();
    let mut i: usize = at;
    assert(left@ =~= q.subrange(at as int, at as int));
    while i < pending.len()
        invariant
            at <= i <= q.len(),
            pending@ == q,
            left@ == q.subrange(at as int, i as int),
        decreases q.len() - i,
    {
        left.push(pending[i]);
        assert(left@ =~= q.subrange(at as int, i + 1));
        i = i + 1;
    }
    assert(left@ =~= q.skip(at as int));
    *pending = left;
    out
}

proof fn lemma_second_byte(b1: u8, b2: u8)
    requires
        0xc0 <= b1 <= 0xdf,
        codepoint_width_2(b1, b2) >= 0x80,
    ensures
        b1 >= 0xc2,
{
    assert(0xc0 <= b1 <= 0xdf && ((((b1 & 0x1f) as u32) << 6) | ((b2 & 0x3f) as u32)) >= 0x80
        ==> b1 >= 0xc2) by (bit_vector);
}

proof fn lemma_third_byte(b1: u8, b2: u8, b3: u8)
    requires
        0xe0 <= b1 <= 0xef,
        0x80 <= b2 <= 0xbf,
        codepoint_width_3(b1, b2, b3) >= 0x800,
        !(0xd800 <= codepoint_width_3(b1, b2, b3) <= 0xdfff),
    ensures
        b1 == 0xe0 ==> b2 >= 0xa0,
        b1 == 0xed ==> b2 <= 0x9f,
{
    let c = codepoint_width_3(b1, b2, b3);
    assert(c == ((((b1 & 0x0f) as u32) << 12) | (((b2 & 0x3f) as u32) << 6) | ((b3
        & 0x3f) as u32)) && b1 == 0xe0 && 0x80 <= b2 <= 0xbf && c >= 0x800 ==> b2 >= 0xa0)
        by (bit_vector);
    assert(c == ((((b1 & 0x0f) as u32) << 12) | (((b2 & 0x3f) as u32) << 6) | ((b3
        & 0x3f) as u32)) && b1 == 0xed && 0x80 <= b2 <= 0xbf && !(0xd800 <= c <= 0xdfff) ==> b2
        <= 0x9f) by (bit_vector);
}

proof fn lemma_fourth_byte(b1: u8, b2: u8, b3: u8, b4: u8)
    requires
        0xf0 <= b1 <= 0xf7,
        0x80 <= b2 <= 0xbf,
        0x10000 <= codepoint_width_4(b1, b2, b3, b4) <= 0x10ffff,
    ensures
        b1 <= 0xf4,
        b1 == 0xf0 ==> b2 >= 0x90,
        b1 == 0xf4 ==> b2 <= 0x8f,
{
    let c = codepoint_width_4(b1, b2, b3, b4);
    assert(c == ((((b1 & 0x07) as u32) << 18) | (((b2 & 0x3f) as u32) << 12) | (((b3
        & 0x3f) as u32) << 6) | ((b4 & 0x3f) as u32)) && 0xf0 <= b1 <= 0xf7 && 0x80 <= b2 <= 0xbf
        && 0x10000 <= c <= 0x10ffff ==> b1 <= 0xf4 && (b1 == 0xf0 ==> b2 >= 0x90) && (b1 == 0xf4
        ==> b2 <= 0x8f)) by (bit_vector);
}

/// The first character is found by its own bytes, whatever follows them.
proof fn lemma_same_first(a: Seq<u8>, b: Seq<u8>)
    requires
        valid_first_scalar(a),
        length_of_first_scalar(a) <= b.len(),
        forall|i: int| 0 <= i < length_of_first_scalar(a) ==> a[i] == b[i],
    ensures
        valid_first_scalar(b),
        length_of_first_scalar(b) == length_of_first_scalar(a),
        decode_first_scalar(b) == decode_first_scalar(a),
{
    assert(a[0] == b[0]);
    let n = length_of_first_scalar(a);
    if n > 1 {
        assert(a[1] == b[1]);
    }
    if n > 2 {
        assert(a[2] == b[2]);
    }
    if n > 3 {
        assert(a[3] == b[3]);
    }
}

proof fn lemma_first_char(q: Seq<u8>)
    requires
        q.len() > 0,
    ensures
        first_char_len(q) == if valid_first_scalar(q) {
            Some(length_of_first_scalar(q))
        } else {
            None
        },
        valid_first_scalar(q) ==> decode_utf8(q.take(length_of_first_scalar(q))) == seq![
            decode_first_scalar(q) as char,
        ],
{
    assert forall|k: int| 1 <= k <= 4 && k <= q.len() && valid_utf8(#[trigger] q.take(k)) implies
        valid_first_scalar(q) && length_of_first_scalar(q) <= k by {
        lemma_same_first(q.take(k), q);
    }
    if valid_first_scalar(q) {
        let n = length_of_first_scalar(q);
        let t = q.take(n);
        lemma_same_first(q, t);
        assert(pop_first_scalar(t) =~= Seq::<u8>::empty());
        assert(valid_utf8(pop_first_scalar(t)));
        assert(valid_utf8(t));
        assert(decode_utf8(pop_first_scalar(t)) =~= Seq::<char>::empty());
        assert(decode_utf8(t) =~= seq![decode_first_scalar(q) as char]);
    }
}

/// What a character starts with is seen to be that.
proof fn lemma_start_is_prefix(a: Seq<u8>, b: Seq<u8>)
    requires
        a.len() > 0,
        valid_first_scalar(a + b),
        length_of_first_scalar(a + b) > a.len(),
    ensures
        is_utf8_prefix(a),
{
    let q = a + b;
    let n = length_of_first_scalar(q);
    assert(q[0] == a[0]);
    if a.len() > 1 {
        assert(q[1] == a[1]);
    }
    if a.len() > 2 {
        assert(q[2] == a[2]);
    }
    if n == 2 {
        lemma_second_byte(q[0], q[1]);
    } else if n == 3 {
        lemma_third_byte(q[0], q[1], q[2]);
    } else {
        lemma_fourth_byte(q[0], q[1], q[2], q[3]);
    }
}

proof fn lemma_prefix_of_prefix(a: Seq<u8>, b: Seq<u8>)
    requires
        a.len() > 0,
        is_utf8_prefix(a + b),
    ensures
        is_utf8_prefix(a),
{
    let q = a + b;
    assert(q[0] == a[0]);
    if a.len() > 1 {
        assert(q[1] == a[1]);
    }
    if a.len() > 2 {
        assert(q[2] == a[2]);
    }
}

/// Bytes may be cut anywhere, also inside a character: the characters of the first part, and then
/// those of what is left over of it with the second part behind it, are the characters of both
/// parts together, and the same is left over.
pub proof fn law_bytes_may_be_cut_anywhere(a: Seq<u8>, b: Seq<u8>)
    ensures
        drained(a + b) == drained(a) + drained(leftover(a) + b),
        leftover(a + b) == leftover(leftover(a) + b),
    decreases a.len(),
{
    let q = a + b;
    if a.len() == 0 {
        assert(q =~= b);
        assert(leftover(a) + b =~= b);
        assert(drained(a) + drained(b) =~= drained(b));
    } else {
        lemma_first_char(a);
        lemma_first_char(q);
        if valid_first_scalar(a) {
            let k = length_of_first_scalar(a);
            lemma_same_first(a, q);
            assert(q.take(k) =~= a.take(k));
            assert(q.skip(k) =~= a.skip(k) + b);
            law_bytes_may_be_cut_anywhere(a.skip(k), b);
            assert(drained(q) =~= drained(a) + drained(leftover(a) + b));
        } else if is_utf8_prefix(a) {
            assert(drained(a) + drained(q) =~= drained(q));
        } else {
            if valid_first_scalar(q) {
                if length_of_first_scalar(q) <= a.len() {
                    lemma_same_first(q, a);
                } else {
                    lemma_start_is_prefix(a, b);
                }
            }
            if is_utf8_prefix(q) {
                lemma_prefix_of_prefix(a, b);
            }
            assert(q.skip(1) =~= a.skip(1) + b);
            law_bytes_may_be_cut_anywhere(a.skip(1), b);
            assert(drained(q) =~= drained(a) + drained(leftover(a) + b));
        }
    }
}

proof fn lemma_valid_drained(q: Seq<u8>)
    requires
        valid_utf8(q),
    ensures
        drained(q) == decode_utf8(q),
        leftover(q) == Seq::<u8>::empty(),
    decreases q.len(),
{
    if q.len() > 0 {
        lemma_first_char(q);
        let k = length_of_first_scalar(q);
        assert(pop_first_scalar(q) =~= q.skip(k));
        lemma_valid_drained(q.skip(k));
    } else {
        assert(leftover(q) =~= Seq::<u8>::empty());
    }
}

/// A text gives just its characters, each once and in order, and nothing is left over.
pub proof fn law_text_gives_its_characters(s: Seq<char>)
    ensures
        drained(encode_utf8(s)) == s,
        leftover(encode_utf8(s)) == Seq::<u8>::empty(),
{
    encode_utf8_valid_utf8(s);
    encode_utf8_decode_utf8(s);
    lemma_valid_drained(encode_utf8(s));
}

/// All characters that come when chunks are added to the bytes that wait one after the other, and
/// what is left over in the end.
pub open spec fn fed_in_chunks(pending: Seq<u8>, chunks: Seq<Seq<u8>>) -> (Seq<char>, Seq<u8>)
    decreases chunks.len(),
{
    if chunks.len() == 0 {
        (Seq::empty(), pending)
    } else {
        let q = pending + chunks[0];
        let (chars, left) = fed_in_chunks(leftover(q), chunks.skip(1));
        (drained(q) + chars, left)
    }
}

/// Of what is left over no character comes, and it stays left over.
pub proof fn lemma_nothing_more(q: Seq<u8>)
    ensures
        drained(leftover(q)) == Seq::<char>::empty(),
        leftover(leftover(q)) == leftover(q),
    decreases q.len(),
{
    if q.len() > 0 {
        match first_char_len(q) {
            Some(k) => lemma_nothing_more(q.skip(k)),
            None => if !is_utf8_prefix(q) {
                lemma_nothing_more(q.skip(1));
            },
        }
    }
}

proof fn lemma_chunks(pending: Seq<u8>, chunks: Seq<Seq<u8>>)
    requires
        drained(pending) == Seq::<char>::empty(),
        leftover(pending) == pending,
    ensures
        fed_in_chunks(pending, chunks) == (
            drained(pending + chunks.flatten()),
            leftover(pending + chunks.flatten()),
        ),
    decreases chunks.len(),
{
    if chunks.len() == 0 {
        assert(pending + chunks.flatten() =~= pending);
    } else {
        let q = pending + chunks[0];
        let rest = chunks.skip(1);
        assert(rest =~= chunks.drop_first());
        lemma_nothing_more(q);
        lemma_chunks(leftover(q), rest);
        assert(pending + chunks.flatten() =~= q + rest.flatten());
        law_bytes_may_be_cut_anywhere(q, rest.flatten());
    }
}

/// A text whose bytes come in chunks, however they are cut, gives just its characters, each once
/// and in order: no replacement character is added, and nothing is left over in the end.
pub proof fn law_text_may_come_in_chunks(s: Seq<char>, chunks: Seq<Seq<u8>>)
    requires
        chunks.flatten() == encode_utf8(s),
    ensures
        fed_in_chunks(Seq::empty(), chunks) == (s, Seq::<u8>::empty()),
{
    let none = Seq::<u8>::empty();
    assert(leftover(none) =~= none);
    lemma_chunks(none, chunks);
    assert(none + chunks.flatten() =~= chunks.flatten());
    law_text_gives_its_characters(s);
}

} // verus!
