//! The byte order of strings, and sorting by it.
use crate::text::lemma_utf8_injective;
use crate::views::strs;
use vstd::prelude::*;
use vstd::utf8::encode_utf8;

verus! {

/// Whether `a` comes before `b` in lexicographic order.
pub open spec fn bytes_before(a: Seq<u8>, b: Seq<u8>) -> bool
    decreases a.len(),
{
    if a.len() == 0 {
        b.len() > 0
    } else if b.len() == 0 {
        false
    } else if a[0] != b[0] {
        a[0] < b[0]
    } else {
        bytes_before(a.drop_first(), b.drop_first())
    }
}

/// Whether the string `a` comes before `b` in byte order.
pub open spec fn str_before(a: Seq<char>, b: Seq<char>) -> bool {
    bytes_before(encode_utf8(a), encode_utf8(b))
}

/// Whether strings stand in byte order.
pub open spec fn in_order(s: Seq<Seq<char>>) -> bool {
    forall|i: int, j: int| 0 <= i < j < s.len() ==> !str_before(#[trigger] s[j], #[trigger] s[i])
}

/// Whether strings stand in byte order and none occurs twice.
pub open spec fn in_strict_order(s: Seq<Seq<char>>) -> bool {
    forall|i: int, j: int| 0 <= i < j < s.len() ==> str_before(#[trigger] s[i], #[trigger] s[j])
}

proof fn lemma_before_trans(a: Seq<u8>, b: Seq<u8>, c: Seq<u8>)
    requires
        bytes_before(a, b),
        bytes_before(b, c),
    ensures
        bytes_before(a, c),
    decreases a.len(),
{
    if a.len() > 0 && b.len() > 0 && c.len() > 0 && a[0] == b[0] && b[0] == c[0] {
        lemma_before_trans(a.drop_first(), b.drop_first(), c.drop_first());
    }
}

proof fn lemma_before_total(a: Seq<u8>, b: Seq<u8>)
    ensures
        bytes_before(a, b) || bytes_before(b, a) || a == b,
        !(bytes_before(a, b) && bytes_before(b, a)),
        !bytes_before(a, a),
    decreases a.len(),
{
    if a.len() > 0 {
        assert(!bytes_before(a, a)) by {
            lemma_before_total(a.drop_first(), a.drop_first());
        }
        if b.len() > 0 {
            lemma_before_total(a.drop_first(), b.drop_first());
            if a[0] == b[0] && a.drop_first() == b.drop_first() {
                assert(a =~= seq![a[0]] + a.drop_first());
                assert(b =~= seq![b[0]] + b.drop_first());
            }
        }
    } else if b.len() == 0 {
        assert(a =~= b);
    }
}

pub proof fn lemma_str_before_trans(a: Seq<char>, b: Seq<char>, c: Seq<char>)
    requires
        str_before(a, b),
        str_before(b, c),
    ensures
        str_before(a, c),
{
    lemma_before_trans(encode_utf8(a), encode_utf8(b), encode_utf8(c));
}

/// Of two strings exactly one comes first, unless they are equal.
pub proof fn lemma_str_before_total(a: Seq<char>, b: Seq<char>)
    ensures
        str_before(a, b) || str_before(b, a) || a == b,
        !(str_before(a, b) && str_before(b, a)),
        a == b ==> !str_before(a, b),
{
    lemma_before_total(encode_utf8(a), encode_utf8(b));
    if encode_utf8(a) == encode_utf8(b) {
        lemma_utf8_injective(a, b);
    }
}

/// Whether the string `a` comes before `b` in byte order.
pub fn str_less(a: &str, b: &str) -> (r: bool)
    ensures
        r == str_before(a@, b@),
{
    let x = a.as_bytes();
    let y = b.as_bytes();
    let mut i: usize = 0;
    assert(x@.skip(0) =~= x@);
    assert(y@.skip(0) =~= y@);
    while i < x.len() && i < y.len()
        invariant
            i <= x@.len(),
            i <= y@.len(),
            x@ == encode_utf8(a@),
            y@ == encode_utf8(b@),
            str_before(a@, b@) == bytes_before(x@.skip(i as int), y@.skip(i as int)),
        decreases x@.len() - i,
    {
        if x[i] != y[i] {
            return x[i] < y[i];
        }
        assert(x@.skip(i as int).drop_first() =~= x@.skip(i + 1));
        assert(y@.skip(i as int).drop_first() =~= y@.skip(i + 1));
        i = i + 1;
    }
    i < y.len()
}

/// Puts a string into its place among sorted strings, unless it is there already.
pub fn insert_unique(v: &mut Vec<String>, s: String)
    requires
        in_strict_order(strs(old(v)@)),
    ensures
        in_strict_order(strs(final(v)@)),
        forall|x: Seq<char>|
            strs(final(v)@).contains(x) <==> (strs(old(v)@).contains(x) || x == s@),
{
    let ghost before = strs(v@);
    let mut i: usize = 0;
    while i < v.len()
        invariant
            i <= v@.len(),
            before == strs(v@),
            v@ == old(v)@,
            in_strict_order(before),
            forall|k: int| 0 <= k < i ==> str_before(#[trigger] before[k], s@),
        ensures
            i < before.len() ==> !str_before(before[i as int], s@),
        decreases v@.len() - i,
    {
        assert(before[i as int] == v@[i as int]@);
        if !str_less(v[i].as_str(), s.as_str()) {
            break;
        }
        i = i + 1;
    }
    proof {
        if i < before.len() {
            lemma_str_before_total(before[i as int], s@);
        }
    }
    if i < v.len() && v[i] == s {
        assert(before[i as int] == s@);
        return;
    }
    v.insert(i, s);
    let ghost after = strs(v@);
    proof {
        assert(after =~= before.insert(i as int, s@));
        assert forall|a: int, b: int| 0 <= a < b < after.len() implies str_before(
            #[trigger] after[a],
            #[trigger] after[b],
        ) by {
            let x = if a < i {
                a
            } else {
                a - 1
            };
            let y = if b < i {
                b
            } else {
                b - 1
            };
            if a == i {
                assert(str_before(s@, before[i as int]));
                if y > i {
                    assert(str_before(before[i as int], before[y]));
                    lemma_str_before_trans(s@, before[i as int], before[y]);
                }
            } else if b == i {
            } else {
                assert(str_before(before[x], before[y]));
            }
        }
        assert forall|x: Seq<char>| after.contains(x) <==> (before.contains(x) || x == s@) by {
            if before.contains(x) {
                let k = choose|k: int| 0 <= k < before.len() && before[k] == x;
                assert(after[if k < i {
                    k
                } else {
                    k + 1
                }] == x);
            }
            assert(after[i as int] == s@);
            if after.contains(x) {
                let k = choose|k: int| 0 <= k < after.len() && after[k] == x;
                if k != i {
                    assert(before[if k < i {
                        k
                    } else {
                        k - 1
                    }] == x);
                }
            }
        }
    }
}

/// Puts a string into its place among sorted strings, after those that are equal to it.
fn insert_sorted(v: &mut Vec<String>, s: String)
    requires
        in_order(strs(old(v)@)),
    ensures
        in_order(strs(final(v)@)),
        strs(final(v)@).to_multiset() == strs(old(v)@).to_multiset().insert(s@),
{
    let ghost before = strs(v@);
    let mut i: usize = v.len();
    while i > 0
        invariant
            i <= v@.len(),
            before == strs(v@),
            v@ == old(v)@,
            in_order(before),
            forall|k: int| i <= k < before.len() ==> str_before(s@, #[trigger] before[k]),
        ensures
            i > 0 ==> !str_before(s@, before[i - 1]),
        decreases i,
    {
        assert(before[i - 1] == v@[i - 1]@);
        if !str_less(s.as_str(), v[i - 1].as_str()) {
            break;
        }
        i = i - 1;
    }
    v.insert(i, s);
    let ghost after = strs(v@);
    proof {
        assert(after =~= before.insert(i as int, s@));
        vstd::seq_lib::to_multiset_insert(before, i as int, s@);
        assert forall|a: int, b: int| 0 <= a < b < after.len() implies !str_before(
            #[trigger] after[b],
            #[trigger] after[a],
        ) by {
            let x = if a < i {
                a
            } else {
                a - 1
            };
            let y = if b < i {
                b
            } else {
                b - 1
            };
            if a == i {
                lemma_str_before_total(s@, before[y]);
            } else if b == i {
                if x < i - 1 {
                    assert(!str_before(before[i - 1], before[x]));
                    if str_before(s@, before[x]) {
                        lemma_str_before_total(before[i - 1], before[x]);
                        if before[x] != before[i - 1] {
                            lemma_str_before_trans(s@, before[x], before[i - 1]);
                        }
                    }
                }
            } else {
                assert(!str_before(before[y], before[x]));
            }
        }
    }
}

/// Sorts strings by byte order.
pub fn sort_strings(v: Vec<String>) -> (r: Vec<String>)
    ensures
        in_order(strs(r@)),
        strs(r@).to_multiset() == strs(v@).to_multiset(),
{
    let mut r: Vec<String> = Vec::new();
    let mut i: usize = 0;
    assert(strs(r@) =~= strs(v@).take(0));
    while i < v.len()
        invariant
            i <= v@.len(),
            in_order(strs(r@)),
            strs(r@).to_multiset() == strs(v@).take(i as int).to_multiset(),
        decreases v@.len() - i,
    {
        proof {
            let t = strs(v@).take(i as int);
            assert(strs(v@).take(i + 1) =~= t.push(v@[i as int]@));
            t.to_multiset_ensures();
        }
        insert_sorted(&mut r, v[i].clone());
        i = i + 1;
    }
    assert(strs(v@).take(i as int) =~= strs(v@));
    r
}

} // verus!
