//! Reconciliation of a widget's rebuilt children against its rendered
//! ones.
//!
//! A keyed new child takes over the rendered child with the same key (when
//! several rendered children share a key, the last of them; the earlier ones
//! are dropped without an unmount). An unkeyed new child takes over the
//! first not yet taken unkeyed rendered child of the same widget type.
//! Rendered children that nothing takes over are unmounted.

use crate::halogen::widget::{keys_equal, KeyView, WidgetKey};
use crate::ids::WidgetId;
use crate::matching::{key_before, keys_unique, last_key_index, lemma_last_key_index};
use vstd::prelude::*;

verus! {

/// What matching needs to know of a child: its key and widget type.
pub struct ChildDesc {
    pub key: Option<WidgetKey>,
    pub type_tag: u64,
}

/// The keys of a list of children.
pub open spec fn desc_keys(s: Seq<ChildDesc>) -> Seq<Option<KeyView>> {
    s.map_values(
        |c: ChildDesc|
            match c.key {
                Some(k) => Some(k@),
                None => None,
            },
    )
}

/// How many of the first `n` children are unkeyed and of type `t`.
pub open spec fn unkeyed_of_type_before(s: Seq<ChildDesc>, t: u64, n: int) -> nat
    decreases n,
{
    if n <= 0 {
        0
    } else {
        unkeyed_of_type_before(s, t, n - 1) + if s[n - 1].key is None && s[n - 1].type_tag == t {
            1nat
        } else {
            0nat
        }
    }
}

/// The unkeyed child of type `t` preceded by exactly `r` unkeyed children
/// of that type, or -1.
pub open spec fn unkeyed_of_type_at(s: Seq<ChildDesc>, t: u64, r: nat) -> int {
    if exists|j: int|
        0 <= j < s.len() && s[j].key is None && s[j].type_tag == t && unkeyed_of_type_before(s, t, j)
            == r {
        choose|j: int|
            0 <= j < s.len() && s[j].key is None && s[j].type_tag == t && unkeyed_of_type_before(
                s,
                t,
                j,
            ) == r
    } else {
        -1
    }
}

/// The rendered child taken over by new child `i`, or -1.
pub open spec fn taken_over(old: Seq<ChildDesc>, new: Seq<ChildDesc>, i: int) -> int {
    let ok = desc_keys(old);
    let nk = desc_keys(new);
    match nk[i] {
        Some(k) => if key_before(nk, k, i) {
            -1
        } else {
            last_key_index(ok, k, old.len() as int)
        },
        None => unkeyed_of_type_at(old, new[i].type_tag, unkeyed_of_type_before(new, new[i].type_tag, i)),
    }
}

/// Rendered child `j` is unmounted: nothing takes it over, and it is not a
/// keyed child shadowed by a later one with the same key.
pub open spec fn unmounted(old: Seq<ChildDesc>, new: Seq<ChildDesc>, j: int) -> bool {
    &&& !exists|i: int| 0 <= i < new.len() && #[trigger] taken_over(old, new, i) == j
    &&& match desc_keys(old)[j] {
        Some(k) => last_key_index(desc_keys(old), k, old.len() as int) == j,
        None => true,
    }
}

/// The outcome of matching.
pub struct ChildMatching {
    /// For each new child, the index of the rendered child it takes over.
    pub matches: Vec<Option<usize>>,
    /// Indices of the rendered children to unmount, ascending.
    pub unmounted: Vec<usize>,
}

proof fn lemma_count_mono(s: Seq<ChildDesc>, t: u64, a: int, b: int)
    requires
        0 <= a <= b <= s.len(),
    ensures
        unkeyed_of_type_before(s, t, a) <= unkeyed_of_type_before(s, t, b),
        a < b && s[a].key is None && s[a].type_tag == t ==> unkeyed_of_type_before(s, t, a)
            < unkeyed_of_type_before(s, t, b),
    decreases b - a,
{
    if a < b {
        lemma_count_mono(s, t, a, b - 1);
    }
}

proof fn lemma_count_at(s: Seq<ChildDesc>, t: u64, j: int)
    requires
        0 <= j < s.len(),
        s[j].key is None,
        s[j].type_tag == t,
    ensures
        unkeyed_of_type_at(s, t, unkeyed_of_type_before(s, t, j)) == j,
{
    let r = unkeyed_of_type_before(s, t, j);
    let j2 = choose|j2: int|
        0 <= j2 < s.len() && s[j2].key is None && s[j2].type_tag == t && unkeyed_of_type_before(s, t, j2)
            == r;
    if j2 < j {
        lemma_count_mono(s, t, j2, j);
    } else if j2 > j {
        lemma_count_mono(s, t, j, j2);
    }
}

proof fn lemma_count_at_none(s: Seq<ChildDesc>, t: u64, r: nat)
    requires
        unkeyed_of_type_before(s, t, s.len() as int) <= r,
    ensures
        unkeyed_of_type_at(s, t, r) == -1,
{
    if exists|j: int|
        0 <= j < s.len() && s[j].key is None && s[j].type_tag == t && unkeyed_of_type_before(s, t, j)
            == r {
        let j = choose|j: int|
            0 <= j < s.len() && s[j].key is None && s[j].type_tag == t && unkeyed_of_type_before(s, t, j)
                == r;
        lemma_count_mono(s, t, j, s.len() as int);
    }
}

/// The count of unkeyed children of a type among the first `n` is the
/// length of those children filtered out of the list.
proof fn lemma_count_is_filter(s: Seq<ChildDesc>, t: u64, n: int)
    requires
        0 <= n <= s.len(),
    ensures
        unkeyed_of_type_before(s, t, n) == s.take(n).filter(|c: ChildDesc| c.key is None && c.type_tag == t).len(),
    decreases n,
{
    reveal(Seq::filter);
    if n > 0 {
        lemma_count_is_filter(s, t, n - 1);
        assert(s.take(n).drop_last() =~= s.take(n - 1));
        assert(s.take(n).last() == s[n - 1]);
    } else {
        assert(s.take(0) =~= Seq::<ChildDesc>::empty());
    }
}

/// An unkeyed rebuilt child takes over a rendered child exactly when that
/// rendered child is unkeyed, of the same widget type, and preceded by as
/// many unkeyed rendered children of that type as the rebuilt child is
/// preceded by unkeyed rebuilt children of that type; keyed children of the
/// type do not count. When there is no such rendered child, it takes none
/// over.
pub proof fn law_unkeyed_child_takes_over_same_rank(old: Seq<ChildDesc>, new: Seq<ChildDesc>, i: int, j: int)
    requires
        0 <= i < new.len(),
        new[i].key is None,
        0 <= j < old.len(),
    ensures
        -1 <= taken_over(old, new, i) < old.len(),
        taken_over(old, new, i) == j <==> (old[j].key is None && old[j].type_tag == new[i].type_tag
            && old.take(j).filter(|c: ChildDesc| c.key is None && c.type_tag == new[i].type_tag).len()
            == new.take(i).filter(|c: ChildDesc| c.key is None && c.type_tag == new[i].type_tag).len()),
{
    let t = new[i].type_tag;
    let r = unkeyed_of_type_before(new, t, i);
    assert(desc_keys(new)[i] is None);
    lemma_count_is_filter(new, t, i);
    lemma_count_is_filter(old, t, j);
    if old[j].key is None && old[j].type_tag == t && unkeyed_of_type_before(old, t, j) == r {
        lemma_count_at(old, t, j);
    }
}

/// Whether an optional key equals `k`.
fn key_matches(a: &Option<WidgetKey>, k: &WidgetKey) -> (r: bool)
    ensures
        r == (match *a {
            Some(x) => x@ == k@,
            None => false,
        }),
{
    match a {
        Some(x) => keys_equal(x, k),
        None => false,
    }
}

/// Matches rebuilt children against the rendered ones.
pub fn reconcile_children(old: &Vec<ChildDesc>, new: &Vec<ChildDesc>) -> (m: ChildMatching)
    ensures
        m.matches@.len() == new@.len(),
        forall|i: int|
            0 <= i < new@.len() ==> match #[trigger] m.matches@[i] {
                Some(j) => j as int == taken_over(old@, new@, i),
                None => taken_over(old@, new@, i) == -1,
            },
        forall|a: int, b: int| 0 <= a < b < m.unmounted@.len() ==> m.unmounted@[a] < m.unmounted@[b],
        forall|a: int| 0 <= a < m.unmounted@.len() ==> (#[trigger] m.unmounted@[a]) < old@.len(),
        forall|j: int|
            0 <= j < old@.len() ==> (unmounted(old@, new@, j) <==> m.unmounted@.contains(j as usize)),
        forall|i: int, j: int|
            #![trigger m.matches@[i], old@[j]]
            0 <= i < new@.len() && new@[i].key is None && 0 <= j < old@.len() ==> (m.matches@[i] == Some(
                j as usize,
            ) <==> (old@[j].key is None && old@[j].type_tag == new@[i].type_tag && old@.take(j).filter(
                |c: ChildDesc| c.key is None && c.type_tag == new@[i].type_tag,
            ).len() == new@.take(i).filter(|c: ChildDesc| c.key is None && c.type_tag == new@[i].type_tag).len())),
{
    let ghost ok = desc_keys(old@);
    let ghost nk = desc_keys(new@);
    let mut matches: Vec<Option<usize>> = Vec::new();
    let mut i: usize = 0;
    while i < new.len()
        invariant
            ok == desc_keys(old@),
            nk == desc_keys(new@),
            i <= new@.len(),
            matches@.len() == i,
            forall|t: int|
                0 <= t < i ==> match #[trigger] matches@[t] {
                    Some(j) => j as int == taken_over(old@, new@, t),
                    None => taken_over(old@, new@, t) == -1,
                },
        decreases new@.len() - i,
    {
        match &new[i].key {
            Some(k) => {
                assert(nk[i as int] == Some(k@));
                let mut dup = false;
                let mut t: usize = 0;
                while t < i
                    invariant
                        t <= i < new@.len(),
                        nk == desc_keys(new@),
                        dup == key_before(nk, k@, t as int),
                    decreases i - t,
                {
                    proof {
                        assert(nk[t as int] == (match new@[t as int].key {
                            Some(x) => Some(x@),
                            None => None,
                        }));
                    }
                    if key_matches(&new[t].key, k) {
                        dup = true;
                    }
                    t = t + 1;
                }
                if dup {
                    matches.push(None);
                } else {
                    let mut j: usize = old.len();
                    let mut found: Option<usize> = None;
                    while j > 0 && found.is_none()
                        invariant
                            j <= old@.len(),
                            ok == desc_keys(old@),
                            found is Some ==> found->0 as int == last_key_index(ok, k@, old@.len() as int),
                            found is None ==> last_key_index(ok, k@, old@.len() as int) == last_key_index(ok, k@, j as int),
                        decreases j,
                    {
                        if key_matches(&old[j - 1].key, k) {
                            found = Some(j - 1);
                        }
                        j = j - 1;
                    }
                    matches.push(found);
                }
            },
            None => {
                let tag = new[i].type_tag;
                // How many unkeyed new children of this type come before.
                let mut r: usize = 0;
                let mut t: usize = 0;
                while t < i
                    invariant
                        t <= i < new@.len(),
                        r as int == unkeyed_of_type_before(new@, tag, t as int),
                        r <= t,
                    decreases i - t,
                {
                    if new[t].key.is_none() && new[t].type_tag == tag {
                        r = r + 1;
                    }
                    t = t + 1;
                }
                // The unkeyed rendered child of this type with that many before it.
                let mut seen: usize = 0;
                let mut j: usize = 0;
                let mut found: Option<usize> = None;
                while j < old.len() && found.is_none()
                    invariant
                        j <= old@.len(),
                        seen as int == unkeyed_of_type_before(old@, tag, j as int),
                        seen <= j,
                        found is Some ==> found->0 as int == unkeyed_of_type_at(old@, tag, r as nat),
                        found is None ==> (seen <= r),
                    decreases old@.len() - j,
                {
                    if old[j].key.is_none() && old[j].type_tag == tag {
                        if seen == r {
                            proof {
                                lemma_count_at(old@, tag, j as int);
                            }
                            found = Some(j);
                        }
                        seen = seen + 1;
                    }
                    j = j + 1;
                }
                proof {
                    if found is None {
                        assert(j == old@.len());
                        lemma_count_at_none(old@, tag, r as nat);
                    }
                }
                matches.push(found);
            },
        }
        i = i + 1;
    }
    let mut unmounted_list: Vec<usize> = Vec::new();
    let mut j: usize = 0;
    while j < old.len()
        invariant
            ok == desc_keys(old@),
            j <= old@.len(),
            matches@.len() == new@.len(),
            forall|t: int|
                0 <= t < new@.len() ==> match #[trigger] matches@[t] {
                    Some(jj) => jj as int == taken_over(old@, new@, t),
                    None => taken_over(old@, new@, t) == -1,
                },
            forall|a: int, b: int| 0 <= a < b < unmounted_list@.len() ==> unmounted_list@[a] < unmounted_list@[b],
            forall|a: int| 0 <= a < unmounted_list@.len() ==> (#[trigger] unmounted_list@[a]) < j,
            forall|jj: int|
                0 <= jj < j ==> (unmounted(old@, new@, jj) <==> unmounted_list@.contains(jj as usize)),
        decreases old@.len() - j,
    {
        // Is it taken over?
        let mut taken = false;
        let mut t: usize = 0;
        while t < new.len()
            invariant
                t <= new@.len(),
                matches@.len() == new@.len(),
                forall|u: int|
                    0 <= u < new@.len() ==> match #[trigger] matches@[u] {
                        Some(jj) => jj as int == taken_over(old@, new@, u),
                        None => taken_over(old@, new@, u) == -1,
                    },
                taken == exists|u: int| 0 <= u < t && #[trigger] taken_over(old@, new@, u) == j as int,
            decreases new@.len() - t,
        {
            match matches[t] {
                Some(jj) => {
                    if jj == j {
                        taken = true;
                    }
                },
                None => {},
            }
            t = t + 1;
        }
        // Is it shadowed by a later child with the same key?
        let shadowed = match &old[j].key {
            Some(k) => {
                let mut later = false;
                let mut u: usize = j + 1;
                while u < old.len()
                    invariant
                        j < u <= old@.len(),
                        ok == desc_keys(old@),
                        later == exists|v: int| j < v < u && ok[v] == Some(k@),
                    decreases old@.len() - u,
                {
                    proof {
                        assert(ok[u as int] == (match old@[u as int].key {
                            Some(x) => Some(x@),
                            None => None,
                        }));
                    }
                    if key_matches(&old[u].key, k) {
                        later = true;
                    }
                    u = u + 1;
                }
                proof {
                    assert(ok[j as int] == Some(k@));
                    lemma_last_key_index(ok, k@, old@.len() as int);
                    if !later {
                        if last_key_index(ok, k@, old@.len() as int) != j as int {
                            assert(last_key_index(ok, k@, old@.len() as int) > j as int);
                        }
                    }
                }
                later
            },
            None => false,
        };
        let ghost before = unmounted_list@;
        if !taken && !shadowed {
            unmounted_list.push(j);
        }
        proof {
            assert forall|jj: int|
                0 <= jj < j + 1 implies (unmounted(old@, new@, jj) <==> unmounted_list@.contains(jj as usize)) by {
                if jj < j {
                    if unmounted_list@.contains(jj as usize) {
                        let a = choose|a: int| 0 <= a < unmounted_list@.len() && unmounted_list@[a] == jj as usize;
                        if a < before.len() {
                            assert(before[a] == jj as usize);
                        }
                    }
                    if before.contains(jj as usize) {
                        let a = choose|a: int| 0 <= a < before.len() && before[a] == jj as usize;
                        assert(unmounted_list@[a] == jj as usize);
                    }
                } else {
                    if unmounted_list@.contains(jj as usize) && !(!taken && !shadowed) {
                        let a = choose|a: int| 0 <= a < unmounted_list@.len() && unmounted_list@[a] == jj as usize;
                        assert(before[a] < j);
                    }
                    if !taken && !shadowed {
                        assert(unmounted_list@[before.len() as int] == j);
                    }
                }
            }
        }
        j = j + 1;
    }
    proof {
        assert forall|i: int, j: int|
            #![trigger matches@[i], old@[j]]
            0 <= i < new@.len() && new@[i].key is None && 0 <= j < old@.len() implies (matches@[i] == Some(
                j as usize,
            ) <==> (old@[j].key is None && old@[j].type_tag == new@[i].type_tag && old@.take(j).filter(
                |c: ChildDesc| c.key is None && c.type_tag == new@[i].type_tag,
            ).len() == new@.take(i).filter(|c: ChildDesc| c.key is None && c.type_tag == new@[i].type_tag).len())) by {
            law_unkeyed_child_takes_over_same_rank(old@, new@, i, j);
        }
    }
    ChildMatching { matches, unmounted: unmounted_list }
}

/// Rebuilding a widget with the very same children (keys, none repeated,
/// and widget types) lets every rendered child be taken over by the child
/// at its own position, and unmounts none.
pub proof fn law_same_children_taken_over_in_place(s: Seq<ChildDesc>, i: int, j: int)
    requires
        keys_unique(desc_keys(s)),
        0 <= i < s.len(),
        0 <= j < s.len(),
    ensures
        taken_over(s, s, i) == i,
        !unmounted(s, s, j),
{
    lemma_taken_in_place(s, i);
    lemma_taken_in_place(s, j);
    assert(taken_over(s, s, j) == j);
}

proof fn lemma_taken_in_place(s: Seq<ChildDesc>, i: int)
    requires
        keys_unique(desc_keys(s)),
        0 <= i < s.len(),
    ensures
        taken_over(s, s, i) == i,
{
    let ks = desc_keys(s);
    assert(ks[i] == (match s[i].key {
        Some(x) => Some(x@),
        None => None,
    }));
    match ks[i] {
        Some(k) => {
            lemma_last_key_index(ks, k, s.len() as int);
            let j = last_key_index(ks, k, s.len() as int);
            if j < i {
                assert(ks[j] == ks[i]);
            }
            if j > i {
                assert(ks[i] != ks[j]);
            }
            if key_before(ks, k, i) {
                let t = choose|t: int| 0 <= t < i && ks[t] == Some(k);
                assert(ks[t] != ks[i]);
            }
        },
        None => {
            lemma_count_at(s, s[i].type_tag, i);
        },
    }
}

/// Rendered child `j` is shadowed: a later rendered child carries the same
/// key, so `j` is dropped without an unmount.
pub open spec fn shadowed(old: Seq<ChildDesc>, j: int) -> bool {
    match desc_keys(old)[j] {
        Some(k) => last_key_index(desc_keys(old), k, old.len() as int) != j,
        None => false,
    }
}

/// Rendered child `j` is taken over by some rebuilt child.
pub open spec fn taken(old: Seq<ChildDesc>, new: Seq<ChildDesc>, j: int) -> bool {
    exists|i: int| 0 <= i < new.len() && #[trigger] taken_over(old, new, i) == j
}

/// Every rendered child meets exactly one fate: it is taken over by a
/// rebuilt child, unmounted, or shadowed by a later child with its key.
pub proof fn law_rendered_child_fate(old: Seq<ChildDesc>, new: Seq<ChildDesc>, j: int)
    requires
        0 <= j < old.len(),
    ensures
        taken(old, new, j) || unmounted(old, new, j) || shadowed(old, j),
        !(taken(old, new, j) && unmounted(old, new, j)),
        !(taken(old, new, j) && shadowed(old, j)),
        !(unmounted(old, new, j) && shadowed(old, j)),
{
    let ok = desc_keys(old);
    let nk = desc_keys(new);
    assert(ok[j] == (match old[j].key {
        Some(x) => Some(x@),
        None => None,
    }));
    if exists|i: int| 0 <= i < new.len() && #[trigger] taken_over(old, new, i) == j {
        let i = choose|i: int| 0 <= i < new.len() && #[trigger] taken_over(old, new, i) == j;
        assert(nk[i] == (match new[i].key {
            Some(x) => Some(x@),
            None => None,
        }));
        match nk[i] {
            Some(k) => {
                lemma_last_key_index(ok, k, old.len() as int);
            },
            None => {
                let t = new[i].type_tag;
                let r = unkeyed_of_type_before(new, t, i);
                assert(exists|jj: int|
                    0 <= jj < old.len() && old[jj].key is None && old[jj].type_tag == t
                        && unkeyed_of_type_before(old, t, jj) == r);
            },
        }
    }
}

/// What placing a rebuilt child records, besides building it.
#[derive(Debug, Clone, Copy, PartialEq, Eq, Structural)]
pub enum ChildEffect {
    /// No rendered child is taken over: a new widget is mounted.
    Mount,
    /// A rendered child is taken over at another position than it had.
    Moved,
    /// A rendered child is taken over at the position it had.
    Stay,
}

/// The effect of placing a rebuilt child at `position`, given the position
/// that the rendered child it takes over had, if it takes one over.
pub fn child_effect(previous: Option<usize>, position: usize) -> (e: ChildEffect)
    ensures
        e == (match previous {
            None => ChildEffect::Mount,
            Some(p) => if p == position {
                ChildEffect::Stay
            } else {
                ChildEffect::Moved
            },
        }),
{
    match previous {
        None => ChildEffect::Mount,
        Some(p) => if p == position {
            ChildEffect::Stay
        } else {
            ChildEffect::Moved
        },
    }
}

/// A lifecycle effect recorded while reconciling, committed in order.
#[derive(Debug, Clone, Copy, PartialEq, Eq, Structural)]
pub enum Effect {
    /// The widget was mounted.
    Mount(WidgetId),
    /// The widget was unmounted; its instance has left the tree.
    Unmount(WidgetId),
    /// The widget was taken over at another position.
    Moved(WidgetId),
}

/// A lifecycle hook to run on a widget.
#[derive(Debug, Clone, Copy, PartialEq, Eq, Structural)]
pub enum Hook {
    OnMount(WidgetId),
    OnUnmount(WidgetId),
    OnMoved(WidgetId),
}

/// The hook that committing `effect` runs. A mounted or moved widget gets
/// its hook only while it is still found in the rendered tree (`found`); an
/// unmounted widget gets its hook on the instance that left the tree.
pub fn commit_hook(effect: Effect, found: bool) -> (h: Option<Hook>)
    ensures
        h == (match effect {
            Effect::Mount(id) => if found {
                Some(Hook::OnMount(id))
            } else {
                None
            },
            Effect::Unmount(id) => Some(Hook::OnUnmount(id)),
            Effect::Moved(id) => if found {
                Some(Hook::OnMoved(id))
            } else {
                None
            },
        }),
{
    match effect {
        Effect::Mount(id) => if found {
            Some(Hook::OnMount(id))
        } else {
            None
        },
        Effect::Unmount(id) => Some(Hook::OnUnmount(id)),
        Effect::Moved(id) => if found {
            Some(Hook::OnMoved(id))
        } else {
            None
        },
    }
}

} // verus!
