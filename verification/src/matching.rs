//! Matching of rebuilt children against existing ones, on keys alone.
//!
//! A keyed new child takes the existing child that carries the same key
//! (the last one when several do), provided no earlier new child already
//! used that key. Unkeyed new children take unkeyed existing children in
//! order.

use vstd::prelude::*;

verus! {

/// How many of the first `n` keys are absent.
pub open spec fn unkeyed_before<K>(keys: Seq<Option<K>>, n: int) -> nat
    decreases n,
{
    if n <= 0 {
        0
    } else {
        unkeyed_before(keys, n - 1) + if keys[n - 1] is None {
            1nat
        } else {
            0nat
        }
    }
}

/// Index of the last of the first `n` keys equal to `k`, or -1.
pub open spec fn last_key_index<K>(keys: Seq<Option<K>>, k: K, n: int) -> int
    decreases n,
{
    if n <= 0 {
        -1
    } else if keys[n - 1] == Some(k) {
        n - 1
    } else {
        last_key_index(keys, k, n - 1)
    }
}

/// Whether a key `k` occurs among the first `n` keys.
pub open spec fn key_before<K>(keys: Seq<Option<K>>, k: K, n: int) -> bool {
    exists|i: int| 0 <= i < n && keys[i] == Some(k)
}

/// Index of the unkeyed entry preceded by exactly `r` unkeyed entries, or
/// -1 when there are no more than `r` unkeyed entries.
pub open spec fn unkeyed_at<K>(keys: Seq<Option<K>>, r: nat) -> int {
    if exists|j: int| 0 <= j < keys.len() && keys[j] is None && unkeyed_before(keys, j) == r {
        choose|j: int| 0 <= j < keys.len() && keys[j] is None && unkeyed_before(keys, j) == r
    } else {
        -1
    }
}

/// The existing child matched by new child `i`, or -1.
pub open spec fn candidate<K>(old: Seq<Option<K>>, new: Seq<Option<K>>, i: int) -> int {
    match new[i] {
        Some(k) => if key_before(new, k, i) {
            -1
        } else {
            last_key_index(old, k, old.len() as int)
        },
        None => unkeyed_at(old, unkeyed_before(new, i)),
    }
}

pub proof fn lemma_unkeyed_before_mono<K>(keys: Seq<Option<K>>, a: int, b: int)
    requires
        0 <= a <= b <= keys.len(),
    ensures
        unkeyed_before(keys, a) <= unkeyed_before(keys, b),
        a < b && keys[a] is None ==> unkeyed_before(keys, a) < unkeyed_before(keys, b),
    decreases b - a,
{
    if a < b {
        lemma_unkeyed_before_mono(keys, a, b - 1);
        if keys[a] is None && a < b - 1 {
            lemma_unkeyed_before_mono(keys, a + 1, b - 1);
        }
    }
}

pub proof fn lemma_last_key_index<K>(keys: Seq<Option<K>>, k: K, n: int)
    requires
        0 <= n <= keys.len(),
    ensures
        -1 <= last_key_index(keys, k, n) < n,
        last_key_index(keys, k, n) >= 0 ==> keys[last_key_index(keys, k, n)] == Some(k),
        forall|j: int| last_key_index(keys, k, n) < j < n ==> keys[j] != Some(k),
        (last_key_index(keys, k, n) >= 0) == key_before(keys, k, n),
    decreases n,
{
    if n > 0 {
        lemma_last_key_index(keys, k, n - 1);
        if keys[n - 1] != Some(k) {
            if key_before(keys, k, n) {
                let i = choose|i: int| 0 <= i < n && keys[i] == Some(k);
                assert(i < n - 1);
            }
        }
    }
}

/// The unkeyed entry at position `j` is the one picked for its count.
pub proof fn lemma_unkeyed_at<K>(keys: Seq<Option<K>>, j: int)
    requires
        0 <= j < keys.len(),
        keys[j] is None,
    ensures
        unkeyed_at(keys, unkeyed_before(keys, j)) == j,
{
    let r = unkeyed_before(keys, j);
    let j2 = choose|j2: int| 0 <= j2 < keys.len() && keys[j2] is None && unkeyed_before(keys, j2) == r;
    if j2 < j {
        lemma_unkeyed_before_mono(keys, j2, j);
    } else if j2 > j {
        lemma_unkeyed_before_mono(keys, j, j2);
    }
}

/// No unkeyed entry is preceded by `r` or more unkeyed entries when there
/// are at most `r` in all.
pub proof fn lemma_unkeyed_at_none<K>(keys: Seq<Option<K>>, r: nat)
    requires
        unkeyed_before(keys, keys.len() as int) <= r,
    ensures
        unkeyed_at(keys, r) == -1,
{
    if exists|j: int| 0 <= j < keys.len() && keys[j] is None && unkeyed_before(keys, j) == r {
        let j = choose|j: int| 0 <= j < keys.len() && keys[j] is None && unkeyed_before(keys, j) == r;
        lemma_unkeyed_before_mono(keys, j, keys.len() as int);
    }
}

/// The candidate of a new child is -1 or an index of the old list.
pub proof fn lemma_candidate_range<K>(old: Seq<Option<K>>, new: Seq<Option<K>>, i: int)
    requires
        0 <= i < new.len(),
    ensures
        -1 <= candidate(old, new, i) < old.len(),
        candidate(old, new, i) >= 0 ==> old[candidate(old, new, i)] == new[i],
{
    match new[i] {
        Some(k) => {
            lemma_last_key_index(old, k, old.len() as int);
        },
        None => {},
    }
}

/// Two new children never take over the same old child.
pub proof fn lemma_candidate_injective<K>(
    old: Seq<Option<K>>,
    new: Seq<Option<K>>,
    i1: int,
    i2: int,
)
    requires
        0 <= i1 < new.len(),
        0 <= i2 < new.len(),
        candidate(old, new, i1) >= 0,
        candidate(old, new, i1) == candidate(old, new, i2),
    ensures
        i1 == i2,
{
    lemma_candidate_range(old, new, i1);
    lemma_candidate_range(old, new, i2);
    if i1 != i2 {
        let (a, b) = if i1 < i2 { (i1, i2) } else { (i2, i1) };
        match new[a] {
            Some(k) => {
                assert(new[b] == Some(k));
                assert(key_before(new, k, b));
            },
            None => {
                let j = candidate(old, new, a);
                assert(new[b] is None);
                assert(unkeyed_before(old, j) == unkeyed_before(new, a));
                assert(unkeyed_before(old, j) == unkeyed_before(new, b));
                lemma_unkeyed_before_mono(new, a, b);
            },
        }
    }
}

/// No key occurs twice.
pub open spec fn keys_unique<K>(keys: Seq<Option<K>>) -> bool {
    forall|a: int, b: int| 0 <= a < b < keys.len() && keys[a] is Some ==> keys[a] != keys[b]
}

/// Rebuilding a list of children with the very same keys, none repeated,
/// matches every child with itself: nothing is remounted or reordered.
pub proof fn law_same_children_match_in_place<K>(keys: Seq<Option<K>>, i: int)
    requires
        keys_unique(keys),
        0 <= i < keys.len(),
    ensures
        candidate(keys, keys, i) == i,
{
    match keys[i] {
        Some(k) => {
            lemma_last_key_index(keys, k, keys.len() as int);
            let j = last_key_index(keys, k, keys.len() as int);
            assert(keys[i] == Some(k));
            if j < i {
                assert(keys[j] == keys[i]);
            }
            if j > i {
                assert(keys[i] != keys[j]);
            }
            if key_before(keys, k, i) {
                let t = choose|t: int| 0 <= t < i && keys[t] == Some(k);
                assert(keys[t] != keys[i]);
            }
        },
        None => {
            lemma_unkeyed_at(keys, i);
        },
    }
}

} // verus!
