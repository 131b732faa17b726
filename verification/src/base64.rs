//! Base64, for code handed to Python and for bodies of network responses.
use vstd::prelude::*;
use vstd::utf8::{encode_utf8, is_ascii_chars, is_ascii_chars_encode_utf8};

verus! {

/// The character that stands for the six bits `v`.
pub open spec fn b64_char(v: int) -> char {
    if v < 26 {
        (0x41 + v) as char
    } else if v < 52 {
        (0x61 + v - 26) as char
    } else if v < 62 {
        (0x30 + v - 52) as char
    } else if v == 62 {
        '+'
    } else {
        '/'
    }
}

/// The six bits that a byte of the alphabet stands for.
pub open spec fn b64_value(b: int) -> Option<int> {
    if 0x41 <= b <= 0x5a {
        Some(b - 0x41)
    } else if 0x61 <= b <= 0x7a {
        Some(b - 0x61 + 26)
    } else if 0x30 <= b <= 0x39 {
        Some(b - 0x30 + 52)
    } else if b == 0x2b {
        Some(62)
    } else if b == 0x2f {
        Some(63)
    } else {
        None
    }
}

/// The four characters for up to three bytes, padded with `=`.
pub open spec fn b64_group(d: Seq<u8>) -> Seq<char> {
    let b0 = d[0] as int;
    let b1 = if d.len() > 1 {
        d[1] as int
    } else {
        0
    };
    let b2 = if d.len() > 2 {
        d[2] as int
    } else {
        0
    };
    seq![
        b64_char(b0 / 4),
        b64_char(b0 % 4 * 16 + b1 / 16),
        if d.len() > 1 {
            b64_char(b1 % 16 * 4 + b2 / 64)
        } else {
            '='
        },
        if d.len() > 2 {
            b64_char(b2 % 64)
        } else {
            '='
        },
    ]
}

/// The Base64 form of a byte string: one group for each three bytes.
pub open spec fn b64_encoded(d: Seq<u8>) -> Seq<char>
    decreases d.len(),
{
    if d.len() == 0 {
        Seq::empty()
    } else if d.len() <= 3 {
        b64_group(d)
    } else {
        b64_group(d.take(3)) + b64_encoded(d.skip(3))
    }
}

/// How many values fit in `bits` bits, for the numbers of bits that can be left over.
pub open spec fn b64_span(bits: int) -> int {
    if bits == 0 {
        1
    } else if bits == 2 {
        4
    } else if bits == 4 {
        16
    } else {
        64
    }
}

/// The bytes that the alphabet's bytes in `s` stand for, with `bits` bits of value `buf` left
/// over from before. Bytes outside the alphabet count for nothing, and so do bits left over at
/// the end.
pub open spec fn b64_decoded_from(s: Seq<u8>, buf: int, bits: int) -> Seq<u8>
    decreases s.len(),
{
    if s.len() == 0 {
        Seq::empty()
    } else {
        match b64_value(s[0] as int) {
            None => b64_decoded_from(s.skip(1), buf, bits),
            Some(v) => {
                let all = buf * 64 + v;
                if bits == 0 {
                    b64_decoded_from(s.skip(1), all, 6)
                } else {
                    let left = bits - 2;
                    seq![(all / b64_span(left)) as u8] + b64_decoded_from(
                        s.skip(1),
                        all % b64_span(left),
                        left,
                    )
                }
            },
        }
    }
}

/// The bytes that a Base64 text stands for.
pub open spec fn b64_decoded(s: Seq<u8>) -> Seq<u8> {
    b64_decoded_from(s, 0, 0)
}

fn b64_digit(v: u8) -> (r: char)
    requires
        v < 64,
    ensures
        r == b64_char(v as int),
{
    if v < 26 {
        (0x41 + v) as char
    } else if v < 52 {
        (0x61 + (v - 26)) as char
    } else if v < 62 {
        (0x30 + (v - 52)) as char
    } else if v == 62 {
        '+'
    } else {
        '/'
    }
}

/// Encodes a byte string.
pub fn base64_encode(data: &[u8]) -> (r: String)
    ensures
        r@ == b64_encoded(data@),
{
    let mut out = String::new();
    let mut i: usize = 0;
    assert(data@.skip(0) =~= data@);
    while i < data.len()
        invariant
            i <= data@.len(),
            out@ + b64_encoded(data@.skip(i as int)) == b64_encoded(data@),
        decreases data@.len() - i,
    {
        let ghost before = out@;
        let left: usize = data.len() - i;
        let b0: u8 = data[i];
        let b1: u8 = if left > 1 {
            data[i + 1]
        } else {
            0
        };
        let b2: u8 = if left > 2 {
            data[i + 2]
        } else {
            0
        };
        out.push(b64_digit(b0 / 4));
        out.push(b64_digit(b0 % 4 * 16 + b1 / 16));
        if left > 1 {
            out.push(b64_digit(b1 % 16 * 4 + b2 / 64));
        } else {
            out.push('=');
        }
        if left > 2 {
            out.push(b64_digit(b2 % 64));
        } else {
            out.push('=');
        }
        let ghost rest = data@.skip(i as int);
        if left > 3 {
            proof {
                assert(out@ =~= before + b64_group(rest.take(3)));
                assert(rest.skip(3) =~= data@.skip(i + 3));
                assert(out@ + b64_encoded(data@.skip(i + 3)) =~= before + b64_encoded(rest));
            }
            i = i + 3;
        } else {
            proof {
                assert(out@ =~= before + b64_group(rest));
                assert(data@.skip(data@.len() as int) =~= Seq::empty());
                assert(out@ + b64_encoded(data@.skip(data@.len() as int)) =~= before + b64_encoded(
                    rest,
                ));
            }
            i = data.len();
        }
    }
    assert(data@.skip(i as int) =~= Seq::empty());
    assert(out@ + b64_encoded(data@.skip(i as int)) =~= out@);
    out
}

fn b64_bits(b: u8) -> (r: Option<u32>)
    ensures
        match r {
            Some(v) => b64_value(b as int) == Some(v as int) && v < 64,
            None => b64_value(b as int) is None,
        },
{
    if b >= 0x41 && b <= 0x5a {
        Some((b - 0x41) as u32)
    } else if b >= 0x61 && b <= 0x7a {
        Some((b - 0x61) as u32 + 26)
    } else if b >= 0x30 && b <= 0x39 {
        Some((b - 0x30) as u32 + 52)
    } else if b == 0x2b {
        Some(62)
    } else if b == 0x2f {
        Some(63)
    } else {
        None
    }
}

/// Decodes a Base64 text, without regard to padding and to bytes outside the alphabet.
pub fn decode_base64(input: &str) -> (r: Vec<u8>)
    ensures
        r@ == b64_decoded(encode_utf8(input@)),
{
    let s = input.as_bytes();
    let ghost t = encode_utf8(input@);
    let mut out: Vec<u8> = Vec::new();
    let mut buf: u32 = 0;
    let mut bits: u32 = 0;
    let mut i: usize = 0;
    assert(t.skip(0) =~= t);
    assert(out@ + b64_decoded_from(t, 0, 0) =~= b64_decoded(t));
    while i < s.len()
        invariant
            i <= s@.len(),
            t == s@,
            bits == 0 || bits == 2 || bits == 4 || bits == 6,
            buf < b64_span(bits as int),
            out@ + b64_decoded_from(t.skip(i as int), buf as int, bits as int) == b64_decoded(t),
        decreases s@.len() - i,
    {
        assert(t.skip(i as int).skip(1) =~= t.skip(i + 1));
        if let Some(v) = b64_bits(s[i]) {
            let all: u32 = buf * 64 + v;
            if bits == 0 {
                buf = all;
                bits = 6;
            } else {
                let left: u32 = bits - 2;
                let span: u32 = if left == 0 {
                    1
                } else if left == 2 {
                    4
                } else {
                    16
                };
                let ghost before = out@;
                out.push((all / span) as u8);
                proof {
                    let next = b64_decoded_from(t.skip(i + 1), (all % span) as int, left as int);
                    assert(out@ + next =~= before + (seq![(all / span) as u8] + next));
                }
                buf = all % span;
                bits = left;
            }
        }
        i = i + 1;
    }
    assert(t.skip(i as int) =~= Seq::empty());
    assert(out@ + b64_decoded_from(t.skip(i as int), buf as int, bits as int) =~= out@);
    out
}

proof fn lemma_value_of_char(v: int)
    requires
        0 <= v < 64,
    ensures
        b64_value(b64_char(v) as int) == Some(v),
        (b64_char(v) as int) < 128,
        b64_char(v) as u8 as int == b64_char(v) as int,
{
}

proof fn lemma_group_ascii(d: Seq<u8>)
    requires
        1 <= d.len() <= 3,
    ensures
        is_ascii_chars(b64_group(d)),
{
    let b1 = if d.len() > 1 {
        d[1] as int
    } else {
        0
    };
    let b2 = if d.len() > 2 {
        d[2] as int
    } else {
        0
    };
    lemma_value_of_char(d[0] as int / 4);
    lemma_value_of_char(d[0] as int % 4 * 16 + b1 / 16);
    lemma_value_of_char(b1 % 16 * 4 + b2 / 64);
    lemma_value_of_char(b2 % 64);
}

proof fn lemma_encoded_ascii(d: Seq<u8>)
    ensures
        is_ascii_chars(b64_encoded(d)),
    decreases d.len(),
{
    if d.len() > 3 {
        lemma_group_ascii(d.take(3));
        lemma_encoded_ascii(d.skip(3));
    } else if d.len() > 0 {
        lemma_group_ascii(d);
    }
}

/// The bytes of an ASCII text.
spec fn ascii_bytes(s: Seq<char>) -> Seq<u8> {
    s.map_values(|c: char| c as u8)
}

proof fn lemma_group_decodes(d: Seq<u8>, rest: Seq<u8>)
    requires
        1 <= d.len() <= 3,
        d.len() < 3 ==> rest.len() == 0,
    ensures
        b64_decoded_from(ascii_bytes(b64_group(d)) + rest, 0, 0) == d + b64_decoded_from(
            rest,
            0,
            0,
        ),
{
    let b0 = d[0] as int;
    let b1 = if d.len() > 1 {
        d[1] as int
    } else {
        0
    };
    let b2 = if d.len() > 2 {
        d[2] as int
    } else {
        0
    };
    let v0 = b0 / 4;
    let v1 = b0 % 4 * 16 + b1 / 16;
    let v2 = b1 % 16 * 4 + b2 / 64;
    let v3 = b2 % 64;
    lemma_value_of_char(v0);
    lemma_value_of_char(v1);
    lemma_value_of_char(v2);
    lemma_value_of_char(v3);
    let s = ascii_bytes(b64_group(d)) + rest;
    let s1 = s.skip(1);
    let s2 = s1.skip(1);
    let s3 = s2.skip(1);
    let s4 = s3.skip(1);
    assert(s4 =~= rest);
    assert(s[0] as int == b64_char(v0) as int);
    assert(s1[0] as int == b64_char(v1) as int);
    assert(b64_decoded_from(s, 0, 0) == b64_decoded_from(s1, v0, 6));
    assert((v0 * 64 + v1) / 16 == b0);
    assert((v0 * 64 + v1) % 16 == b1 / 16);
    assert(b64_decoded_from(s1, v0, 6) == seq![d[0]] + b64_decoded_from(s2, b1 / 16, 4));
    if d.len() == 1 {
        assert(b64_value('=' as int) is None);
        assert(s2[0] as int == '=' as int);
        assert(s3[0] as int == '=' as int);
        assert(b64_decoded_from(s2, b1 / 16, 4) == b64_decoded_from(s3, b1 / 16, 4));
        assert(b64_decoded_from(s3, b1 / 16, 4) == b64_decoded_from(s4, b1 / 16, 4));
        assert(b64_decoded_from(s4, b1 / 16, 4) =~= Seq::empty());
        assert(b64_decoded_from(rest, 0, 0) =~= Seq::empty());
        assert(d =~= seq![d[0]]);
    } else {
        assert(s2[0] as int == b64_char(v2) as int);
        assert((b1 / 16 * 64 + v2) / 4 == b1);
        assert((b1 / 16 * 64 + v2) % 4 == b2 / 64);
        assert(b64_decoded_from(s2, b1 / 16, 4) == seq![d[1]] + b64_decoded_from(s3, b2 / 64, 2));
        if d.len() == 2 {
            assert(b64_value('=' as int) is None);
            assert(s3[0] as int == '=' as int);
            assert(b64_decoded_from(s3, b2 / 64, 2) == b64_decoded_from(s4, b2 / 64, 2));
            assert(b64_decoded_from(s4, b2 / 64, 2) =~= Seq::empty());
            assert(b64_decoded_from(rest, 0, 0) =~= Seq::empty());
            assert(b64_decoded_from(s, 0, 0) =~= d);
        } else {
            assert(s3[0] as int == b64_char(v3) as int);
            assert(b2 / 64 * 64 + v3 == b2);
            assert(b64_decoded_from(s3, b2 / 64, 2) == seq![d[2]] + b64_decoded_from(s4, 0, 0));
            assert(b64_decoded_from(s, 0, 0) =~= d + b64_decoded_from(rest, 0, 0));
        }
    }
}

proof fn lemma_encoded_decodes(d: Seq<u8>)
    ensures
        b64_decoded(ascii_bytes(b64_encoded(d))) == d,
    decreases d.len(),
{
    if d.len() == 0 {
        assert(b64_decoded(ascii_bytes(b64_encoded(d))) =~= d);
    } else if d.len() <= 3 {
        let e = ascii_bytes(b64_encoded(d));
        assert(e =~= ascii_bytes(b64_group(d)) + Seq::<u8>::empty());
        lemma_group_decodes(d, Seq::empty());
        assert(d + b64_decoded_from(Seq::empty(), 0, 0) =~= d);
    } else {
        lemma_encoded_decodes(d.skip(3));
        let rest = ascii_bytes(b64_encoded(d.skip(3)));
        assert(ascii_bytes(b64_encoded(d)) =~= ascii_bytes(b64_group(d.take(3))) + rest);
        lemma_group_decodes(d.take(3), rest);
        assert(d.take(3) + d.skip(3) =~= d);
    }
}

/// Decoding undoes encoding, for every byte string.
pub proof fn law_decode_undoes_encode(d: Seq<u8>)
    ensures
        b64_decoded(encode_utf8(b64_encoded(d))) == d,
{
    lemma_encoded_ascii(d);
    is_ascii_chars_encode_utf8(b64_encoded(d));
    assert(encode_utf8(b64_encoded(d)) =~= ascii_bytes(b64_encoded(d)));
    lemma_encoded_decodes(d);
}

} // verus!
