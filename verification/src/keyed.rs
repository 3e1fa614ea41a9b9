//! Sequences of keys and values read as a finite map.
//!
//! The stores of this crate keep their entries in insertion order and never
//! hold a key twice. This module gives such a pair of sequences its meaning as
//! a `Map`, proves how appending and replacing an entry change that map, and
//! tests lists of keys for repetitions.

use crate::identity::bytes_equal;
use vstd::prelude::*;

verus! {

/// No key occurs at two positions.
pub open spec fn distinct<K>(keys: Seq<K>) -> bool {
    forall|i: int, j: int| 0 <= i < j < keys.len() ==> keys[i] != keys[j]
}

/// The map that sends each key to the value stored at the key's position.
pub open spec fn assoc<K, V>(keys: Seq<K>, vals: Seq<V>) -> Map<K, V> {
    Map::new(|k: K| keys.contains(k), |k: K| vals[keys.index_of(k)])
}

/// With distinct keys, position `i` is where the map finds `keys[i]`.
pub proof fn lemma_assoc_at<K, V>(keys: Seq<K>, vals: Seq<V>, i: int)
    requires
        distinct(keys),
        keys.len() == vals.len(),
        0 <= i < keys.len(),
    ensures
        assoc(keys, vals).dom().contains(keys[i]),
        assoc(keys, vals)[keys[i]] == vals[i],
{
    assert(keys.contains(keys[i]));
    let j = keys.index_of(keys[i]);
    assert(0 <= j < keys.len() && keys[j] == keys[i]);
    if j < i {
        assert(keys[j] != keys[i]);
    } else if i < j {
        assert(keys[i] != keys[j]);
    }
}

/// With distinct keys, a key of the map has one position, and the map finds
/// the value stored there.
pub proof fn lemma_assoc_where<K, V>(keys: Seq<K>, vals: Seq<V>, k: K) -> (i: int)
    requires
        distinct(keys),
        keys.len() == vals.len(),
        assoc(keys, vals).dom().contains(k),
    ensures
        0 <= i < keys.len(),
        keys[i] == k,
        assoc(keys, vals)[k] == vals[i],
{
    let i = keys.index_of(k);
    lemma_assoc_at(keys, vals, i);
    i
}

/// Appending an entry under a fresh key inserts it into the map.
pub proof fn lemma_assoc_push<K, V>(keys: Seq<K>, vals: Seq<V>, k: K, v: V)
    requires
        distinct(keys),
        keys.len() == vals.len(),
        !keys.contains(k),
    ensures
        distinct(keys.push(k)),
        assoc(keys.push(k), vals.push(v)) == assoc(keys, vals).insert(k, v),
{
    let keys2 = keys.push(k);
    let vals2 = vals.push(v);
    assert forall|i: int, j: int| 0 <= i < j < keys2.len() implies keys2[i] != keys2[j] by {
        if j == keys.len() {
            assert(keys.contains(keys[i]));
        }
    }
    assert forall|x: K| #[trigger] keys2.contains(x) == (keys.contains(x) || x == k) by {
        if keys.contains(x) {
            let i = keys.index_of(x);
            assert(keys2[i] == x);
        }
        if x == k {
            assert(keys2[keys.len() as int] == k);
        }
        if keys2.contains(x) {
            let i = keys2.index_of(x);
            if i < keys.len() {
                assert(keys[i] == x);
            }
        }
    }
    assert forall|x: K| keys2.contains(x) implies #[trigger] assoc(keys2, vals2)[x] == assoc(
        keys,
        vals,
    ).insert(k, v)[x] by {
        let i = keys2.index_of(x);
        lemma_assoc_at(keys2, vals2, i);
        if i < keys.len() {
            assert(keys[i] == x);
            lemma_assoc_at(keys, vals, i);
        }
    }
    assert(assoc(keys2, vals2) =~= assoc(keys, vals).insert(k, v));
}

/// Replacing the value at position `i` replaces it in the map.
pub proof fn lemma_assoc_update<K, V>(keys: Seq<K>, vals: Seq<V>, i: int, v: V)
    requires
        distinct(keys),
        keys.len() == vals.len(),
        0 <= i < keys.len(),
    ensures
        assoc(keys, vals.update(i, v)) == assoc(keys, vals).insert(keys[i], v),
{
    let vals2 = vals.update(i, v);
    assert(keys.contains(keys[i]));
    assert forall|x: K| keys.contains(x) implies #[trigger] assoc(keys, vals2)[x] == assoc(
        keys,
        vals,
    ).insert(keys[i], v)[x] by {
        let j = keys.index_of(x);
        lemma_assoc_at(keys, vals2, j);
        lemma_assoc_at(keys, vals, j);
    }
    assert(assoc(keys, vals2) =~= assoc(keys, vals).insert(keys[i], v));
}

/// A key that no position holds is outside the map's domain.
pub proof fn lemma_assoc_absent<K, V>(keys: Seq<K>, vals: Seq<V>, k: K)
    requires
        forall|i: int| 0 <= i < keys.len() ==> keys[i] != k,
    ensures
        !assoc(keys, vals).dom().contains(k),
{
    if keys.contains(k) {
        let i = keys.index_of(k);
        assert(keys[i] == k);
    }
}

/// The map's domain is finite and no larger than the sequence of keys.
pub proof fn lemma_assoc_dom<K, V>(keys: Seq<K>, vals: Seq<V>)
    ensures
        assoc(keys, vals).dom().finite(),
        assoc(keys, vals).dom().len() <= keys.len(),
{
    assert(assoc(keys, vals).dom() =~= keys.to_set());
    vstd::seq_lib::seq_to_set_is_finite(keys);
    keys.lemma_cardinality_of_set();
}

/// Where keys are not distinct, two positions hold the same key.
pub proof fn lemma_clash<K>(keys: Seq<K>) -> (at: (int, int))
    requires
        !distinct(keys),
    ensures
        0 <= at.0 < at.1 < keys.len(),
        keys[at.0] == keys[at.1],
{
    let (i, j) = choose|i: int, j: int| 0 <= i < j < keys.len() && keys[i] == keys[j];
    (i, j)
}

/// What a list of strings stands for.
pub open spec fn text_views(keys: Seq<String>) -> Seq<Seq<char>> {
    Seq::new(keys.len(), |i: int| keys[i]@)
}

/// What a list of byte strings stands for.
pub open spec fn byte_views(keys: Seq<Vec<u8>>) -> Seq<Seq<u8>> {
    Seq::new(keys.len(), |i: int| keys[i]@)
}

/// Whether no string occurs twice in the list.
pub fn texts_distinct(keys: &Vec<String>) -> (ok: bool)
    ensures
        ok == distinct(text_views(keys@)),
{
    let mut j: usize = 0;
    while j < keys.len()
        invariant
            j <= keys.len(),
            forall|a: int, b: int|
                0 <= a < b < j ==> text_views(keys@)[a] != text_views(keys@)[b],
        decreases keys.len() - j,
    {
        let mut i: usize = 0;
        while i < j
            invariant
                i <= j,
                j < keys.len(),
                forall|a: int| 0 <= a < i ==> text_views(keys@)[a] != text_views(keys@)[j as int],
            decreases j - i,
        {
            if keys[i] == keys[j] {
                assert(text_views(keys@)[i as int] == text_views(keys@)[j as int]);
                return false;
            }
            i += 1;
        }
        j += 1;
    }
    true
}

/// Whether no byte string occurs twice in the list.
pub fn bytes_distinct(keys: &Vec<Vec<u8>>) -> (ok: bool)
    ensures
        ok == distinct(byte_views(keys@)),
{
    let mut j: usize = 0;
    while j < keys.len()
        invariant
            j <= keys.len(),
            forall|a: int, b: int|
                0 <= a < b < j ==> byte_views(keys@)[a] != byte_views(keys@)[b],
        decreases keys.len() - j,
    {
        let mut i: usize = 0;
        while i < j
            invariant
                i <= j,
                j < keys.len(),
                forall|a: int| 0 <= a < i ==> byte_views(keys@)[a] != byte_views(keys@)[j as int],
            decreases j - i,
        {
            if bytes_equal(&keys[i], &keys[j]) {
                assert(byte_views(keys@)[i as int] == byte_views(keys@)[j as int]);
                return false;
            }
            i += 1;
        }
        j += 1;
    }
    true
}

} // verus!
