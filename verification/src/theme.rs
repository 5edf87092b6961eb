//! Themes: collections of design tokens looked up by key.
//!
//! Each key type of a theme is identified by a `u64`; a token value is held
//! behind an `Arc`, so cloning or merging a theme shares the token rather
//! than copying it, and `diff` tells shared tokens from replaced ones by
//! identity.

use std::collections::HashMap;
use std::sync::Arc;
use vstd::prelude::*;

verus! {

broadcast use vstd::std_specs::hash::group_hash_axioms;

/// `Arc::clone`: a second handle on the same allocation. Claimed: the new
/// handle reads the same value.
#[verifier::external_body]
fn share<V>(a: &Arc<V>) -> (r: Arc<V>)
    ensures
        *r == **a,
{
    Arc::clone(a)
}

/// `Arc::ptr_eq`: whether two handles point to the same allocation.
/// Claimed: handles on one allocation read the same value. Which handles
/// share an allocation is not stated.
#[verifier::external_body]
fn same_allocation<V>(a: &Arc<V>, b: &Arc<V>) -> (r: bool)
    ensures
        r ==> **a == **b,
{
    Arc::ptr_eq(a, b)
}

/// The values behind a map of shared handles.
pub open spec fn shared_values<V>(m: Map<u64, Arc<V>>) -> Map<u64, V> {
    m.map_values(|a: Arc<V>| *a)
}

/// A type-keyed collection of design tokens.
pub struct Theme<V> {
    values: HashMap<u64, Arc<V>>,
}

impl<V> Theme<V> {
    /// The tokens as a map from key to value.
    pub closed spec fn view(&self) -> Map<u64, V> {
        shared_values(self.values@)
    }

    /// An empty theme.
    pub fn new() -> (r: Self)
        ensures
            r@ == Map::<u64, V>::empty(),
    {
        let r = Theme { values: HashMap::new() };
        assert(r@ =~= Map::<u64, V>::empty());
        r
    }

    /// Stores a shared token under `key`, replacing any earlier one.
    fn put(&mut self, key: u64, value: Arc<V>)
        ensures
            final(self)@ == old(self)@.insert(key, *value),
    {
        let ghost v0 = self.values@;
        self.values.insert(key, value);
        assert(shared_values(v0.insert(key, value)) =~= shared_values(v0).insert(key, *value));
    }

    /// Sets a token, returning the theme for chaining.
    pub fn set(self, key: u64, value: V) -> (r: Self)
        ensures
            r@ == self@.insert(key, value),
    {
        let mut s = self;
        s.set_mut(key, value);
        s
    }

    /// Sets a token in place.
    pub fn set_mut(&mut self, key: u64, value: V)
        ensures
            final(self)@ == old(self)@.insert(key, value),
    {
        self.put(key, Arc::new(value));
    }

    /// Removes a token, returning the theme for chaining.
    pub fn remove(self, key: u64) -> (r: Self)
        ensures
            r@ == self@.remove(key),
    {
        let mut s = self;
        s.remove_mut(key);
        s
    }

    /// Removes a token in place; nothing happens when it is not set.
    pub fn remove_mut(&mut self, key: u64)
        ensures
            final(self)@ == old(self)@.remove(key),
    {
        let ghost v0 = self.values@;
        self.values.remove(&key);
        assert(shared_values(v0.remove(key)) =~= shared_values(v0).remove(key));
    }

    /// The token stored under `key`, if any.
    pub fn get(&self, key: u64) -> (r: Option<&V>)
        ensures
            match r {
                Some(v) => self@.dom().contains(key) && *v == self@[key],
                None => !self@.dom().contains(key),
            },
    {
        match self.values.get(&key) {
            Some(a) => Some(&**a),
            None => None,
        }
    }

    /// Whether a token is stored under `key`.
    pub fn contains(&self, key: u64) -> (r: bool)
        ensures
            r == self@.dom().contains(key),
    {
        self.values.contains_key(&key)
    }

    /// Copies every token of `other` into this theme, sharing each.
    pub fn extend(&mut self, other: &Theme<V>)
        ensures
            final(self)@ == old(self)@.union_prefer_right(other@),
    {
        let ghost base = self@;
        let ghost om = other.values@;
        let ghost mut seen: Set<u64> = Set::empty();
        for (k, v) in it: other.values.iter()
            invariant
                om == other.values@,
                forall|i: int| 0 <= i < it.seq().len() ==> #[trigger] om.contains_key(*it.seq()[i].0) && om[*it.seq()[i].0] == *it.seq()[i].1,
                forall|x: u64| #[trigger] om.contains_key(x) ==> seen.contains(x) || exists|i: int| it.index() <= i < it.seq().len() && *it.seq()[i].0 == x,
                seen.subset_of(om.dom()),
                self@ == base.union_prefer_right(shared_values(om).restrict(seen)),
        {
            let ghost idx = it.index();
            let value = share(v);
            self.put(*k, value);
            proof {
                assert(om.contains_key(*k) && om[*k] == *v);
                let s2 = seen.insert(*k);
                assert(self@ =~= base.union_prefer_right(shared_values(om).restrict(s2)));
                assert forall|x: u64| #[trigger] om.contains_key(x) && !s2.contains(x) implies exists|i: int| idx + 1 <= i < it.seq().len() && *it.seq()[i].0 == x by {
                    let i = choose|i: int| idx <= i < it.seq().len() && *it.seq()[i].0 == x;
                    assert(i != idx);
                }
                seen = s2;
            }
        }
        proof {
            assert(seen =~= om.dom());
            assert(self@ =~= base.union_prefer_right(other@));
        }
    }

    /// This theme with the tokens of `other` on top: tokens set in `other`
    /// win, tokens set only here are kept.
    pub fn merge(self, other: &Theme<V>) -> (r: Self)
        ensures
            r@ == self@.union_prefer_right(other@),
    {
        let mut s = self;
        s.extend(other);
        s
    }

    /// Keys of `other` whose token here is absent or not the same shared
    /// token, each once, in no promised order. Keys set only here are not
    /// listed; a key that is not listed holds the same value in both themes.
    pub fn diff(&self, other: &Theme<V>) -> (r: Vec<u64>)
        ensures
            r@.no_duplicates(),
            forall|k: u64| r@.contains(k) ==> other@.dom().contains(k),
            forall|k: u64|
                other@.dom().contains(k) && !self@.dom().contains(k) ==> r@.contains(k),
            forall|k: u64|
                other@.dom().contains(k) && !r@.contains(k) ==> self@.dom().contains(k) && self@[k]
                    == other@[k],
    {
        let ghost om = other.values@;
        let ghost mut seen: Set<u64> = Set::empty();
        let mut r: Vec<u64> = Vec::new();
        for (k, v) in it: other.values.iter()
            invariant
                om == other.values@,
                it.seq().no_duplicates(),
                forall|i: int| 0 <= i < it.seq().len() ==> #[trigger] om.contains_key(*it.seq()[i].0) && om[*it.seq()[i].0] == *it.seq()[i].1,
                forall|x: u64| #[trigger] om.contains_key(x) ==> seen.contains(x) || exists|i: int| it.index() <= i < it.seq().len() && *it.seq()[i].0 == x,
                forall|i: int| it.index() <= i < it.seq().len() ==> !seen.contains(#[trigger] *it.seq()[i].0),
                seen.subset_of(om.dom()),
                r@.no_duplicates(),
                forall|x: u64| #[trigger] r@.contains(x) ==> seen.contains(x),
                forall|x: u64| #[trigger] seen.contains(x) && !self@.dom().contains(x) ==> r@.contains(x),
                forall|x: u64|
                    #[trigger] seen.contains(x) && !r@.contains(x) ==> self@.dom().contains(x) && self@[x] == *om[x],
        {
            let ghost idx = it.index();
            let changed = match self.values.get(k) {
                None => true,
                Some(a) => !same_allocation(a, v),
            };
            let ghost r0 = r@;
            if changed {
                r.push(*k);
            }
            proof {
                assert(it.seq()[idx] == (k, v));
                assert(om.contains_key(*k) && om[*k] == *v);
                assert(!seen.contains(*k));
                if changed {
                    assert forall|a: int, b: int| 0 <= a < b < r@.len() implies r@[a] != r@[b] by {
                        if b == r0.len() {
                            assert(r0.contains(r0[a]));
                        } else {
                            assert(r@[a] == r0[a] && r@[b] == r0[b]);
                        }
                    }
                    assert(r@[r0.len() as int] == *k);
                }
                assert forall|x: u64| #[trigger] r@.contains(x) implies seen.insert(*k).contains(x) by {
                    if x != *k {
                        let j = choose|j: int| 0 <= j < r@.len() && r@[j] == x;
                        assert(r0[j] == x);
                        assert(r0.contains(x));
                    }
                }
                assert forall|x: u64| r0.contains(x) implies #[trigger] r@.contains(x) by {
                    let j = choose|j: int| 0 <= j < r0.len() && r0[j] == x;
                    assert(r@[j] == x);
                }
                assert forall|i: int| idx + 1 <= i < it.seq().len() implies !seen.insert(*k).contains(#[trigger] *it.seq()[i].0) by {
                    if *it.seq()[i].0 == *k {
                        assert(om[*it.seq()[i].0] == *it.seq()[i].1);
                        assert(it.seq()[i] == it.seq()[idx]);
                    }
                }
                assert forall|x: u64| #[trigger] om.contains_key(x) && !seen.insert(*k).contains(x) implies exists|i: int| idx + 1 <= i < it.seq().len() && *it.seq()[i].0 == x by {
                    let i = choose|i: int| idx <= i < it.seq().len() && *it.seq()[i].0 == x;
                    assert(i != idx);
                }
                seen = seen.insert(*k);
            }
        }
        proof {
            assert(seen =~= om.dom());
        }
        r
    }

    /// The keys that are set, each once, in no promised order.
    pub fn keys(&self) -> (r: Vec<u64>)
        ensures
            r@.no_duplicates(),
            r@.to_set() == self@.dom(),
            r@.len() == self@.dom().len(),
    {
        let ghost m = self.values@;
        let ghost mut seen: Set<u64> = Set::empty();
        let mut r: Vec<u64> = Vec::new();
        for (k, v) in it: self.values.iter()
            invariant
                m == self.values@,
                forall|i: int| 0 <= i < it.seq().len() ==> #[trigger] m.contains_key(*it.seq()[i].0) && m[*it.seq()[i].0] == *it.seq()[i].1,
                it.seq().no_duplicates(),
                forall|x: u64| #[trigger] m.contains_key(x) ==> seen.contains(x) || exists|i: int| it.index() <= i < it.seq().len() && *it.seq()[i].0 == x,
                forall|i: int| it.index() <= i < it.seq().len() ==> !seen.contains(#[trigger] *it.seq()[i].0),
                seen.subset_of(m.dom()),
                r@.no_duplicates(),
                r@.to_set() == seen,
        {
            let ghost idx = it.index();
            let ghost r0 = r@;
            r.push(*k);
            proof {
                assert(it.seq()[idx] == (k, v));
                assert(!seen.contains(*k));
                assert forall|a: int, b: int| 0 <= a < b < r@.len() implies r@[a] != r@[b] by {
                    if b == r0.len() {
                        assert(r0.contains(r0[a]));
                        assert(r0.to_set().contains(r0[a]));
                    } else {
                        assert(r@[a] == r0[a] && r@[b] == r0[b]);
                    }
                }
                assert(r@ == r0.push(*k));
                assert(r@.to_set() =~= seen.insert(*k)) by {
                    assert forall|x: u64| r@.contains(x) <==> (r0.contains(x) || x == *k) by {
                        if r0.contains(x) {
                            let j = choose|j: int| 0 <= j < r0.len() && r0[j] == x;
                            assert(r@[j] == x);
                        }
                        if r@.contains(x) && x != *k {
                            let j = choose|j: int| 0 <= j < r@.len() && r@[j] == x;
                            assert(r0[j] == x);
                        }
                        if x == *k {
                            assert(r@[r0.len() as int] == x);
                        }
                    }
                }
                assert forall|i: int| idx + 1 <= i < it.seq().len() implies !seen.insert(*k).contains(#[trigger] *it.seq()[i].0) by {
                    if *it.seq()[i].0 == *k {
                        assert(m[*it.seq()[i].0] == *it.seq()[i].1);
                        assert(it.seq()[i] == it.seq()[idx]);
                    }
                }
                assert forall|x: u64| #[trigger] m.contains_key(x) && !seen.insert(*k).contains(x) implies exists|i: int| idx + 1 <= i < it.seq().len() && *it.seq()[i].0 == x by {
                    let i = choose|i: int| idx <= i < it.seq().len() && *it.seq()[i].0 == x;
                    assert(i != idx);
                }
                seen = seen.insert(*k);
            }
        }
        proof {
            assert(seen =~= self@.dom());
            r@.unique_seq_to_set();
        }
        r
    }

    /// The number of tokens set.
    pub fn len(&self) -> (r: usize)
        ensures
            r == self@.dom().len(),
    {
        assert(self@.dom() =~= self.values@.dom());
        self.values.len()
    }

    /// Whether no token is set.
    pub fn is_empty(&self) -> (r: bool)
        ensures
            r == (self@.dom().len() == 0),
    {
        self.len() == 0
    }
}

impl<V> Clone for Theme<V> {
    /// A theme holding the same tokens, shared rather than copied.
    fn clone(&self) -> (r: Self)
        ensures
            r@ == self@,
    {
        Theme { values: self.values.clone() }
    }
}

impl<V> Default for Theme<V> {
    /// An empty theme.
    fn default() -> (r: Self)
        ensures
            r@ == Map::<u64, V>::empty(),
    {
        Theme::new()
    }
}

impl<V: Clone> Theme<V> {
    /// The token under `key`, or `fallback` when it is not set.
    pub fn get_or(&self, key: u64, fallback: V) -> (r: V)
        ensures
            self@.dom().contains(key) ==> cloned(self@[key], r),
            !self@.dom().contains(key) ==> r == fallback,
    {
        match self.get(key) {
            Some(v) => v.clone(),
            None => fallback,
        }
    }
}

/// A token read back right after it was set is the value that was set;
/// setting a token leaves every other token as it was.
pub proof fn law_get_after_set<V>(theme: Theme<V>, key: u64, value: V, other: u64)
    requires
        other != key,
    ensures
        theme@.insert(key, value).dom().contains(key),
        theme@.insert(key, value)[key] == value,
        theme@.insert(key, value).dom().contains(other) == theme@.dom().contains(other),
        theme@.dom().contains(other) ==> theme@.insert(key, value)[other] == theme@[other],
{
}

/// A removed token is gone; the other tokens stay as they were.
pub proof fn law_remove<V>(theme: Theme<V>, key: u64, other: u64)
    requires
        other != key,
    ensures
        !theme@.remove(key).dom().contains(key),
        theme@.remove(key).dom().contains(other) == theme@.dom().contains(other),
        theme@.dom().contains(other) ==> theme@.remove(key)[other] == theme@[other],
{
}

/// Merging `top` onto `base`: tokens set in `top` overwrite those of
/// `base`, tokens set only in `base` are kept, and nothing else is set.
pub proof fn law_merge_overrides<V>(base: Theme<V>, top: Theme<V>, key: u64)
    ensures
        base@.union_prefer_right(top@).dom().contains(key) == (base@.dom().contains(key)
            || top@.dom().contains(key)),
        top@.dom().contains(key) ==> base@.union_prefer_right(top@)[key] == top@[key],
        base@.dom().contains(key) && !top@.dom().contains(key) ==> base@.union_prefer_right(
            top@,
        )[key] == base@[key],
{
}

} // verus!
