//! Small association lists: entries in insertion order, looked up by key.

use vstd::prelude::*;

use crate::payment_queue::bytes_eq;

verus! {

/// The index of the first entry with key `k`, or the number of entries.
pub open spec fn key_index<K, V>(s: Seq<(K, V)>, k: K) -> int
    decreases s.len(),
{
    if s.len() == 0 {
        0
    } else if s[0].0 == k {
        0
    } else {
        1 + key_index(s.drop_first(), k)
    }
}

/// The index of the first entry whose text key reads `k`, or the number of
/// entries.
pub open spec fn text_key_index<V>(s: Seq<(String, V)>, k: Seq<char>) -> int
    decreases s.len(),
{
    if s.len() == 0 {
        0
    } else if s[0].0@ == k {
        0
    } else {
        1 + text_key_index(s.drop_first(), k)
    }
}

/// The value of the first entry with key `k`.
pub open spec fn lookup<K, V>(s: Seq<(K, V)>, k: K) -> Option<V> {
    let i = key_index(s, k);
    if 0 <= i < s.len() {
        Some(s[i].1)
    } else {
        None
    }
}

/// The entries after `k` is bound to `v`: the first entry with key `k` replaced,
/// or a new last entry.
pub open spec fn upserted<K, V>(s: Seq<(K, V)>, k: K, v: V) -> Seq<(K, V)> {
    let i = key_index(s, k);
    if 0 <= i < s.len() {
        s.update(i, (k, v))
    } else {
        s.push((k, v))
    }
}

pub proof fn lemma_key_index<K, V>(s: Seq<(K, V)>, k: K, i: int)
    requires
        0 <= i <= s.len(),
        forall|j: int| 0 <= j < i ==> (#[trigger] s[j]).0 != k,
        i == s.len() || s[i].0 == k,
    ensures
        key_index(s, k) == i,
    decreases i,
{
    if i > 0 {
        assert(s[0].0 != k);
        lemma_key_index(s.drop_first(), k, i - 1);
    }
}

pub proof fn lemma_text_key_index<V>(s: Seq<(String, V)>, k: Seq<char>, i: int)
    requires
        0 <= i <= s.len(),
        forall|j: int| 0 <= j < i ==> (#[trigger] s[j]).0@ != k,
        i == s.len() || s[i].0@ == k,
    ensures
        text_key_index(s, k) == i,
    decreases i,
{
    if i > 0 {
        assert(s[0].0@ != k);
        lemma_text_key_index(s.drop_first(), k, i - 1);
    }
}

/// No entry before `key_index(s, k)` has key `k`, and the one there has.
pub proof fn lemma_key_index_props<K, V>(s: Seq<(K, V)>, k: K)
    ensures
        0 <= key_index(s, k) <= s.len(),
        forall|j: int| 0 <= j < key_index(s, k) ==> (#[trigger] s[j]).0 != k,
        key_index(s, k) < s.len() ==> s[key_index(s, k)].0 == k,
    decreases s.len(),
{
    if s.len() > 0 && s[0].0 != k {
        lemma_key_index_props(s.drop_first(), k);
        assert forall|j: int| 0 <= j < key_index(s, k) implies (#[trigger] s[j]).0 != k by {
            if j > 0 {
                assert(s[j] == s.drop_first()[j - 1]);
            }
        }
    }
}

/// No entry before `text_key_index(s, k)` reads `k`, and the one there does.
pub proof fn lemma_text_key_index_props<V>(s: Seq<(String, V)>, k: Seq<char>)
    ensures
        0 <= text_key_index(s, k) <= s.len(),
        forall|j: int| 0 <= j < text_key_index(s, k) ==> (#[trigger] s[j]).0@ != k,
        text_key_index(s, k) < s.len() ==> s[text_key_index(s, k)].0@ == k,
    decreases s.len(),
{
    if s.len() > 0 && s[0].0@ != k {
        lemma_text_key_index_props(s.drop_first(), k);
        assert forall|j: int| 0 <= j < text_key_index(s, k) implies (#[trigger] s[j]).0@ != k by {
            if j > 0 {
                assert(s[j] == s.drop_first()[j - 1]);
            }
        }
    }
}

/// After `k` is bound to `v`, looking `k` up gives `v`.
pub proof fn lemma_upserted_lookup<K, V>(s: Seq<(K, V)>, k: K, v: V)
    ensures
        lookup(upserted(s, k, v), k) == Some(v),
        key_index(upserted(s, k, v), k) == key_index(s, k),
{
    lemma_key_index_props(s, k);
    let i = key_index(s, k);
    let u = upserted(s, k, v);
    lemma_key_index(u, k, i);
}

/// Replacing the value at the index of `k` keeps that index.
pub proof fn lemma_key_index_update<K, V>(s: Seq<(K, V)>, k: K, v: V)
    requires
        key_index(s, k) < s.len(),
    ensures
        key_index(s.update(key_index(s, k), (k, v)), k) == key_index(s, k),
{
    lemma_upserted_lookup(s, k, v);
}

/// After the text `k` is bound to `v`, looking it up gives `v`.
pub proof fn lemma_text_upserted_lookup<V>(s: Seq<(String, V)>, k: String, v: V)
    ensures
        ({
            let u = text_upserted(s, k, v);
            let i = text_key_index(u, k@);
            0 <= i < u.len() && u[i].1 == v
        }),
{
    lemma_text_key_index_props(s, k@);
    let i = text_key_index(s, k@);
    let u = text_upserted(s, k, v);
    lemma_text_key_index(u, k@, i);
}

/// No two entries share a key.
pub open spec fn keys_unique<K, V>(s: Seq<(K, V)>) -> bool {
    forall|a: int, b: int| 0 <= a < b < s.len() ==> (#[trigger] s[a]).0 != (#[trigger] s[b]).0
}

/// Binding a key keeps keys unique.
pub proof fn lemma_upserted_unique<K, V>(s: Seq<(K, V)>, k: K, v: V)
    requires
        keys_unique(s),
    ensures
        keys_unique(upserted(s, k, v)),
{
    lemma_key_index_props(s, k);
    let i = key_index(s, k);
    let u = upserted(s, k, v);
    assert forall|a: int, b: int| 0 <= a < b < u.len() implies (#[trigger] u[a]).0 != (#[trigger] u[b]).0 by {
        if i < s.len() {
            assert(u[a].0 == s[a].0);
            assert(u[b].0 == s[b].0);
        } else if b == s.len() {
            assert(u[a] == s[a]);
        } else {
            assert(u[a] == s[a]);
            assert(u[b] == s[b]);
        }
    }
}

/// Replacing a value under its own key keeps keys unique.
pub proof fn lemma_update_unique<K, V>(s: Seq<(K, V)>, i: int, v: V)
    requires
        keys_unique(s),
        0 <= i < s.len(),
    ensures
        keys_unique(s.update(i, (s[i].0, v))),
{
    let u = s.update(i, (s[i].0, v));
    assert forall|a: int, b: int| 0 <= a < b < u.len() implies (#[trigger] u[a]).0 != (#[trigger] u[b]).0 by {
        assert(u[a].0 == s[a].0);
        assert(u[b].0 == s[b].0);
    }
}

/// Removing an entry keeps keys unique, and its key is then gone.
pub proof fn lemma_remove_unique<K, V>(s: Seq<(K, V)>, k: K)
    requires
        keys_unique(s),
        key_index(s, k) < s.len(),
    ensures
        keys_unique(s.remove(key_index(s, k))),
        lookup(s.remove(key_index(s, k)), k) is None,
{
    lemma_key_index_props(s, k);
    let i = key_index(s, k);
    let u = s.remove(i);
    assert forall|a: int, b: int| 0 <= a < b < u.len() implies (#[trigger] u[a]).0 != (#[trigger] u[b]).0 by {
        assert(u[a] == s[if a < i { a } else { a + 1 }]);
        assert(u[b] == s[if b < i { b } else { b + 1 }]);
    }
    assert forall|j: int| 0 <= j < u.len() implies (#[trigger] u[j]).0 != k by {
        assert(u[j] == s[if j < i { j } else { j + 1 }]);
    }
    lemma_key_index(u, k, u.len() as int);
}

/// Finds the first entry keyed by `k`.
pub fn find_u64<V>(s: &Vec<(u64, V)>, k: u64) -> (r: usize)
    ensures
        r == key_index(s@, k),
        r <= s@.len(),
{
    let mut i: usize = 0;
    while i < s.len() && s[i].0 != k
        invariant
            0 <= i <= s@.len(),
            forall|j: int| 0 <= j < i ==> (#[trigger] s@[j]).0 != k,
        decreases s@.len() - i,
    {
        i = i + 1;
    }
    proof {
        lemma_key_index(s@, k, i as int);
    }
    i
}

/// Finds the first entry keyed by `k`.
pub fn find_u128<V>(s: &Vec<(u128, V)>, k: u128) -> (r: usize)
    ensures
        r == key_index(s@, k),
        r <= s@.len(),
{
    let mut i: usize = 0;
    while i < s.len() && s[i].0 != k
        invariant
            0 <= i <= s@.len(),
            forall|j: int| 0 <= j < i ==> (#[trigger] s@[j]).0 != k,
        decreases s@.len() - i,
    {
        i = i + 1;
    }
    proof {
        lemma_key_index(s@, k, i as int);
    }
    i
}

/// Finds the first entry keyed by the bytes `k`.
pub fn find_bytes<V, const N: usize>(s: &Vec<([u8; N], V)>, k: &[u8; N]) -> (r: usize)
    ensures
        r == key_index(s@, *k),
        r <= s@.len(),
{
    let mut i: usize = 0;
    while i < s.len() && !bytes_eq(&s[i].0, k)
        invariant
            0 <= i <= s@.len(),
            forall|j: int| 0 <= j < i ==> (#[trigger] s@[j]).0 != *k,
        decreases s@.len() - i,
    {
        i = i + 1;
    }
    proof {
        lemma_key_index(s@, *k, i as int);
    }
    i
}

/// Finds the first entry keyed by the text `k`.
pub fn find_text<V>(s: &Vec<(String, V)>, k: &String) -> (r: usize)
    ensures
        r == text_key_index(s@, k@),
        r <= s@.len(),
{
    let mut i: usize = 0;
    while i < s.len() && !(s[i].0 == *k)
        invariant
            0 <= i <= s@.len(),
            forall|j: int| 0 <= j < i ==> (#[trigger] s@[j]).0@ != k@,
        decreases s@.len() - i,
    {
        i = i + 1;
    }
    proof {
        lemma_text_key_index(s@, k@, i as int);
    }
    i
}

/// Binds `k` to `v`.
pub fn upsert_u64<V>(s: &mut Vec<(u64, V)>, k: u64, v: V)
    ensures
        final(s)@ == upserted(old(s)@, k, v),
{
    let i = find_u64(s, k);
    if i < s.len() {
        s.remove(i);
        s.insert(i, (k, v));
        proof {
            assert(final(s)@ =~= upserted(old(s)@, k, v));
        }
    } else {
        s.push((k, v));
    }
}

/// Binds `k` to `v`.
pub fn upsert_u128<V>(s: &mut Vec<(u128, V)>, k: u128, v: V)
    ensures
        final(s)@ == upserted(old(s)@, k, v),
{
    let i = find_u128(s, k);
    if i < s.len() {
        s.remove(i);
        s.insert(i, (k, v));
        proof {
            assert(final(s)@ =~= upserted(old(s)@, k, v));
        }
    } else {
        s.push((k, v));
    }
}

/// Binds the bytes `k` to `v`.
pub fn upsert_bytes<V, const N: usize>(s: &mut Vec<([u8; N], V)>, k: [u8; N], v: V)
    ensures
        final(s)@ == upserted(old(s)@, k, v),
{
    let i = find_bytes(s, &k);
    if i < s.len() {
        s.remove(i);
        s.insert(i, (k, v));
        proof {
            assert(final(s)@ =~= upserted(old(s)@, k, v));
        }
    } else {
        s.push((k, v));
    }
}

/// The entries after the text `k` is bound to `v`.
pub open spec fn text_upserted<V>(s: Seq<(String, V)>, k: String, v: V) -> Seq<(String, V)> {
    let i = text_key_index(s, k@);
    if 0 <= i < s.len() {
        s.update(i, (k, v))
    } else {
        s.push((k, v))
    }
}

/// Binds the text `k` to `v`.
pub fn upsert_text<V>(s: &mut Vec<(String, V)>, k: String, v: V)
    ensures
        final(s)@ == text_upserted(old(s)@, k, v),
{
    let i = find_text(s, &k);
    if i < s.len() {
        s.remove(i);
        s.insert(i, (k, v));
        proof {
            assert(final(s)@ =~= text_upserted(old(s)@, k, v));
        }
    } else {
        s.push((k, v));
    }
}

} // verus!
