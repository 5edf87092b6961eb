//! Pruning of subscriber lists by liveness flags.

use crate::ids::WidgetId;
use vstd::prelude::*;

verus! {

/// Whether no widget id occurs twice.
pub open spec fn unique_ids<N>(subs: Seq<(WidgetId, N)>) -> bool {
    forall|a: int, b: int| 0 <= a < b < subs.len() ==> subs[a].0 != subs[b].0
}

/// The entries whose flag in `alive` is set, in their order.
pub open spec fn retain_alive<X>(items: Seq<X>, alive: Seq<bool>) -> Seq<X>
    decreases items.len(),
{
    if items.len() == 0 {
        Seq::empty()
    } else {
        let rest = retain_alive(items.drop_last(), alive.take(items.len() - 1));
        if alive[items.len() - 1] {
            rest.push(items.last())
        } else {
            rest
        }
    }
}

/// Every kept entry is an entry of the list before pruning.
pub proof fn lemma_retain_alive_subset<X>(subs: Seq<X>, alive: Seq<bool>)
    requires
        alive.len() == subs.len(),
    ensures
        retain_alive(subs, alive).len() <= subs.len(),
        forall|x: X| #[trigger] retain_alive(subs, alive).contains(x) ==> subs.contains(x),
    decreases subs.len(),
{
    if subs.len() > 0 {
        let n = subs.len() - 1;
        let rest = subs.drop_last();
        let ra = alive.take(n);
        lemma_retain_alive_subset(rest, ra);
        let r = retain_alive(rest, ra);
        let full = retain_alive(subs, alive);
        assert(full == if alive[n] { r.push(subs.last()) } else { r });
        assert forall|x: X| full.contains(x) implies subs.contains(x) by {
            let k = choose|k: int| 0 <= k < full.len() && full[k] == x;
            if k < r.len() {
                assert(full[k] == r[k]);
                assert(r.contains(x));
                let j = choose|j: int| 0 <= j < rest.len() && rest[j] == x;
                assert(subs[j] == rest[j]);
            } else {
                assert(subs[n] == x);
            }
        }
    }
}

/// Every entry whose flag is set is kept: pruning drops only entries
/// flagged dead.
pub proof fn law_live_entries_kept<X>(subs: Seq<X>, alive: Seq<bool>, i: int)
    requires
        alive.len() == subs.len(),
        0 <= i < subs.len(),
        alive[i],
    ensures
        retain_alive(subs, alive).contains(subs[i]),
    decreases subs.len(),
{
    let n = subs.len() - 1;
    let rest = subs.drop_last();
    let ra = alive.take(n);
    let r = retain_alive(rest, ra);
    assert(retain_alive(subs, alive) == if alive[n] { r.push(subs.last()) } else { r });
    if i == n {
        assert(retain_alive(subs, alive)[r.len() as int] == subs[i]);
    } else {
        law_live_entries_kept(rest, ra, i);
        let j = choose|j: int| 0 <= j < r.len() && r[j] == rest[i];
        assert(retain_alive(subs, alive)[j] == subs[i]);
    }
}

/// Keeps the entries of `v` whose flag in `keep` is set, in their order.
pub fn retain_flagged<X>(v: &mut Vec<X>, keep: &Vec<bool>)
    requires
        keep@.len() == old(v)@.len(),
    ensures
        final(v)@ == retain_alive(old(v)@, keep@),
{
    let ghost items = v@;
    let n: usize = v.len();
    let mut k: usize = 0;
    let mut i: usize = 0;
    while i < v.len()
        invariant
            n == items.len(),
            0 <= i <= k <= items.len(),
            keep@.len() == items.len(),
            v@.len() - i == items.len() - k,
            v@.take(i as int) == retain_alive(items.take(k as int), keep@.take(k as int)),
            v@.skip(i as int) == items.skip(k as int),
        decreases v@.len() - i,
    {
        let ghost cur = v@;
        proof {
            assert(cur[i as int] == cur.skip(i as int)[0]);
            assert(items[k as int] == items.skip(k as int)[0]);
            assert(items.take(k + 1).drop_last() =~= items.take(k as int));
            assert(keep@.take(k + 1).take(k as int) =~= keep@.take(k as int));
            assert(items.take(k + 1).last() == items[k as int]);
            assert(keep@.take(k + 1)[k as int] == keep@[k as int]);
            assert(items.skip(k + 1) =~= items.skip(k as int).skip(1));
            assert(cur.skip(i as int + 1) =~= cur.skip(i as int).skip(1));
        }
        if keep[k] {
            proof {
                assert(cur.take(i as int + 1) =~= cur.take(i as int).push(cur[i as int]));
            }
            i = i + 1;
        } else {
            v.remove(i);
            proof {
                assert(v@.take(i as int) =~= cur.take(i as int));
                assert(v@.skip(i as int) =~= cur.skip(i as int + 1));
            }
        }
        k = k + 1;
    }
    proof {
        assert(items.take(k as int) =~= items);
        assert(keep@.take(k as int) =~= keep@);
        assert(v@.take(i as int) =~= v@);
    }
}

} // verus!
