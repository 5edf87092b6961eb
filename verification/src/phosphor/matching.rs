//! Matching of a widget's rebuilt children against its current ones.

use crate::matching::{
    candidate, key_before, last_key_index, lemma_unkeyed_at, lemma_unkeyed_at_none,
    lemma_unkeyed_before_mono, unkeyed_before,
};
use crate::phosphor::tree::{key_view, NodeSpec};
use vstd::prelude::*;

verus! {

/// The keys of a list of child descriptions.
pub open spec fn spec_keys(s: Seq<NodeSpec>) -> Seq<Option<Seq<char>>> {
    s.map_values(|n: NodeSpec| key_view(n.key))
}

/// A plan entry names the candidate, or is absent when there is none.
pub open spec fn plan_entry(p: Option<usize>, c: int) -> bool {
    match p {
        Some(j) => j as int == c,
        None => c == -1,
    }
}

/// Whether a key equals a given string.
fn key_is(a: &Option<String>, k: &String) -> (r: bool)
    ensures
        r == (key_view(*a) == Some(k@)),
{
    match a {
        Some(s) => *s == *k,
        None => false,
    }
}

/// Matches the new children against the old ones: entry `i` of the result
/// is the index of the old child that new child `i` takes over, if any.
pub fn plan_children(old: &Vec<NodeSpec>, new: &Vec<NodeSpec>) -> (plan: Vec<Option<usize>>)
    ensures
        plan@.len() == new@.len(),
        forall|i: int|
            0 <= i < plan@.len() ==> plan_entry(
                #[trigger] plan@[i],
                candidate(spec_keys(old@), spec_keys(new@), i),
            ),
{
    let ghost ok = spec_keys(old@);
    let ghost nk = spec_keys(new@);
    let mut plan: Vec<Option<usize>> = Vec::new();
    let mut pos: usize = 0;
    let mut i: usize = 0;
    while i < new.len()
        invariant
            ok == spec_keys(old@),
            nk == spec_keys(new@),
            i <= new.len(),
            plan@.len() == i,
            pos <= old.len(),
            unkeyed_before(ok, pos as int) == unkeyed_before(nk, i as int) || (pos == old.len()
                && unkeyed_before(nk, i as int) >= unkeyed_before(ok, old.len() as int)),
            forall|t: int|
                0 <= t < i ==> plan_entry(#[trigger] plan@[t], candidate(ok, nk, t)),
        decreases new.len() - i,
    {
        assert(nk[i as int] == key_view(new@[i as int].key));
        match &new[i].key {
            Some(k) => {
                // Has an earlier new child used the key?
                let mut dup = false;
                let mut t: usize = 0;
                while t < i
                    invariant
                        t <= i < new.len(),
                        nk == spec_keys(new@),
                        dup == key_before(nk, k@, t as int),
                    decreases i - t,
                {
                    assert(nk[t as int] == key_view(new@[t as int].key));
                    if key_is(&new[t].key, k) {
                        dup = true;
                    }
                    t = t + 1;
                }
                if dup {
                    plan.push(None);
                } else {
                    // The last old child with the key.
                    let mut j: usize = old.len();
                    let mut found: Option<usize> = None;
                    while j > 0 && found.is_none()
                        invariant
                            j <= old.len(),
                            ok == spec_keys(old@),
                            found is Some ==> found->0 as int == last_key_index(ok, k@, old.len() as int),
                            found is None ==> last_key_index(ok, k@, old.len() as int) == last_key_index(ok, k@, j as int),
                        decreases j,
                    {
                        assert(ok[j - 1] == key_view(old@[j - 1].key));
                        if key_is(&old[j - 1].key, k) {
                            found = Some(j - 1);
                        }
                        j = j - 1;
                    }
                    proof {
                        if found is None {
                            assert(last_key_index(ok, k@, j as int) == -1);
                        }
                    }
                    plan.push(found);
                }
                proof {
                    assert(unkeyed_before(nk, i as int + 1) == unkeyed_before(nk, i as int));
                }
            },
            None => {
                let ghost r = unkeyed_before(nk, i as int);
                while pos < old.len() && old[pos].key.is_some()
                    invariant
                        pos <= old.len(),
                        ok == spec_keys(old@),
                        unkeyed_before(ok, pos as int) == r || (pos == old.len() && r >= unkeyed_before(ok, old.len() as int)),
                    decreases old.len() - pos,
                {
                    assert(ok[pos as int] == key_view(old@[pos as int].key));
                    pos = pos + 1;
                }
                if pos < old.len() {
                    proof {
                        assert(ok[pos as int] == key_view(old@[pos as int].key));
                        lemma_unkeyed_at(ok, pos as int);
                    }
                    plan.push(Some(pos));
                    pos = pos + 1;
                } else {
                    proof {
                        lemma_unkeyed_before_mono(ok, pos as int, old.len() as int);
                        lemma_unkeyed_at_none(ok, r);
                    }
                    plan.push(None);
                }
            },
        }
        proof {
            assert(plan_entry(plan@[i as int], candidate(ok, nk, i as int)));
        }
        i = i + 1;
    }
    plan
}

} // verus!
