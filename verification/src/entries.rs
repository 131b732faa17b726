//! Ordered collections of key and value pairs, as sequences.
use vstd::prelude::*;

verus! {

/// The position of the first pair with the key `k`, or the length where there is none.
pub open spec fn key_index<K, V>(s: Seq<(K, V)>, k: K) -> int
    decreases s.len(),
{
    if s.len() == 0 {
        0
    } else if s[0].0 == k {
        0
    } else {
        1 + key_index(s.drop_first(), k)
    }
}

/// Whether a pair has the key `k`.
pub open spec fn has_key<K, V>(s: Seq<(K, V)>, k: K) -> bool {
    key_index(s, k) < s.len()
}

/// The value of the key `k`.
pub open spec fn value_of<K, V>(s: Seq<(K, V)>, k: K) -> Option<V> {
    if has_key(s, k) {
        Some(s[key_index(s, k)].1)
    } else {
        None
    }
}

/// The pairs after `k` was given the value `v`: in its old place, or last where it is new.
pub open spec fn put<K, V>(s: Seq<(K, V)>, k: K, v: V) -> Seq<(K, V)> {
    if has_key(s, k) {
        s.update(key_index(s, k), (k, v))
    } else {
        s.push((k, v))
    }
}

/// The pairs without that of `k`, the others in their order.
pub open spec fn drop_key<K, V>(s: Seq<(K, V)>, k: K) -> Seq<(K, V)> {
    if has_key(s, k) {
        s.remove(key_index(s, k))
    } else {
        s
    }
}

/// The keys, in order.
pub open spec fn keys_of<K, V>(s: Seq<(K, V)>) -> Seq<K> {
    s.map_values(|e: (K, V)| e.0)
}

/// The values, in order.
pub open spec fn values_of<K, V>(s: Seq<(K, V)>) -> Seq<V> {
    s.map_values(|e: (K, V)| e.1)
}

/// Whether no key occurs twice.
pub open spec fn distinct_keys<K, V>(s: Seq<(K, V)>) -> bool {
    forall|i: int, j: int| 0 <= i < j < s.len() ==> (#[trigger] s[i]).0 != (#[trigger] s[j]).0
}

pub proof fn lemma_key_index<K, V>(s: Seq<(K, V)>, k: K)
    ensures
        0 <= key_index(s, k) <= s.len(),
        has_key(s, k) ==> s[key_index(s, k)].0 == k,
        forall|i: int| 0 <= i < key_index(s, k) ==> (#[trigger] s[i]).0 != k,
    decreases s.len(),
{
    if s.len() > 0 && s[0].0 != k {
        let t = s.drop_first();
        lemma_key_index(t, k);
        assert forall|i: int| 0 <= i < key_index(s, k) implies (#[trigger] s[i]).0 != k by {
            if i > 0 {
                assert(t[i - 1] == s[i]);
            }
        }
    }
}

/// The first pair with a key is where the key is found.
pub proof fn lemma_key_index_is<K, V>(s: Seq<(K, V)>, k: K, i: int)
    requires
        0 <= i <= s.len(),
        i < s.len() ==> s[i].0 == k,
        forall|j: int| 0 <= j < i ==> (#[trigger] s[j]).0 != k,
    ensures
        key_index(s, k) == i,
{
    lemma_key_index(s, k);
    let m = key_index(s, k);
    if m < i {
        assert(s[m].0 != k);
    }
    if i < m {
        assert(s[i].0 != k);
    }
}

/// What was put is found, and every other key keeps its value.
pub proof fn lemma_put<K, V>(s: Seq<(K, V)>, k: K, v: V)
    ensures
        value_of(put(s, k, v), k) == Some(v),
        forall|j: K| j != k ==> #[trigger] value_of(put(s, k, v), j) == value_of(s, j),
        distinct_keys(s) ==> distinct_keys(put(s, k, v)),
{
    lemma_key_index(s, k);
    let t = put(s, k, v);
    lemma_key_index_is(t, k, key_index(s, k));
    assert forall|j: K| j != k implies #[trigger] value_of(t, j) == value_of(s, j) by {
        lemma_key_index(s, j);
        let m = key_index(s, j);
        if m < s.len() {
            lemma_key_index_is(t, j, m);
        } else {
            lemma_key_index_is(t, j, t.len() as int);
        }
    }
    if distinct_keys(s) {
        assert forall|i: int, j: int| 0 <= i < j < t.len() implies (#[trigger] t[i]).0 != (
        #[trigger] t[j]).0 by {
            if has_key(s, k) {
                assert(s[i].0 != s[j].0);
            } else if j < s.len() {
                assert(s[i].0 != s[j].0);
            } else {
                assert(s[i].0 != k);
            }
        }
    }
}

/// A key that was removed is gone, and every other key keeps its value.
pub proof fn law_removed_key_is_gone<K, V>(s: Seq<(K, V)>, k: K)
    requires
        distinct_keys(s),
    ensures
        !has_key(drop_key(s, k), k),
        forall|j: K| j != k ==> #[trigger] value_of(drop_key(s, k), j) == value_of(s, j),
        distinct_keys(drop_key(s, k)),
{
    lemma_key_index(s, k);
    let p = key_index(s, k);
    let t = drop_key(s, k);
    if has_key(s, k) {
        assert forall|i: int| 0 <= i < t.len() implies (#[trigger] t[i]).0 != k by {
            if i < p {
                assert(t[i] == s[i]);
            } else {
                assert(t[i] == s[i + 1]);
                assert(s[p].0 != s[i + 1].0);
            }
        }
        lemma_key_index_is(t, k, t.len() as int);
        assert forall|j: K| j != k implies #[trigger] value_of(t, j) == value_of(s, j) by {
            lemma_key_index(s, j);
            let m = key_index(s, j);
            if m == s.len() {
                assert forall|i: int| 0 <= i < t.len() implies (#[trigger] t[i]).0 != j by {
                    if i < p {
                        assert(t[i] == s[i]);
                    } else {
                        assert(t[i] == s[i + 1]);
                    }
                }
                lemma_key_index_is(t, j, t.len() as int);
            } else if m < p {
                lemma_key_index_is(t, j, m);
            } else {
                assert(m > p);
                assert forall|i: int| 0 <= i < m - 1 implies (#[trigger] t[i]).0 != j by {
                    if i < p {
                        assert(t[i] == s[i]);
                    } else {
                        assert(t[i] == s[i + 1]);
                    }
                }
                lemma_key_index_is(t, j, m - 1);
            }
        }
        assert forall|i: int, j: int| 0 <= i < j < t.len() implies (#[trigger] t[i]).0 != (
        #[trigger] t[j]).0 by {
            let a = if i < p {
                i
            } else {
                i + 1
            };
            let b = if j < p {
                j
            } else {
                j + 1
            };
            assert(s[a].0 != s[b].0);
        }
    }
}

} // verus!
