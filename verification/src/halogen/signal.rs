//! State of a Halogen signal: a value and the widgets subscribed to it,
//! at most one handle per widget.
//!
//! The runtime keeps this state behind a lock and shares it between the
//! signal's clones. A subscriber's handle `N` may outlive its widget; the
//! runtime tells which handles are still live when it notifies.

use crate::ids::WidgetId;
use crate::subscribers::{lemma_retain_alive_subset, retain_alive, retain_flagged, unique_ids};
use vstd::prelude::*;

verus! {

/// Subscribers after `id` subscribes with handle `n`: a subscriber already
/// registered under `id` gets the new handle in its place; otherwise the new
/// subscriber is appended.
pub open spec fn upsert<N>(subs: Seq<(WidgetId, N)>, id: WidgetId, n: N) -> Seq<(WidgetId, N)> {
    if exists|i: int| 0 <= i < subs.len() && subs[i].0 == id {
        let i = choose|i: int| 0 <= i < subs.len() && subs[i].0 == id;
        subs.update(i, (id, n))
    } else {
        subs.push((id, n))
    }
}

/// Pruning a list with unique ids leaves the ids unique.
pub proof fn lemma_retain_unique<N>(subs: Seq<(WidgetId, N)>, alive: Seq<bool>)
    requires
        alive.len() == subs.len(),
        unique_ids(subs),
    ensures
        unique_ids(retain_alive(subs, alive)),
    decreases subs.len(),
{
    if subs.len() > 0 {
        let n = subs.len() - 1;
        let rest = subs.drop_last();
        let ra = alive.take(n);
        lemma_retain_unique(rest, ra);
        lemma_retain_alive_subset(rest, ra);
        let r = retain_alive(rest, ra);
        assert(retain_alive(subs, alive) == if alive[n] { r.push(subs.last()) } else { r });
        if alive[n] {
            let t = r.push(subs.last());
            assert forall|a: int, b: int| 0 <= a < b < t.len() implies t[a].0 != t[b].0 by {
                if b == r.len() {
                    assert(t[a] == r[a]);
                    assert(r.contains(r[a]));
                    let j = choose|j: int| 0 <= j < rest.len() && rest[j] == r[a];
                    assert(subs[j] == rest[j]);
                    assert(t[b] == subs[n]);
                } else {
                    assert(t[a] == r[a] && t[b] == r[b]);
                }
            }
        }
    }
}

/// The state of a reactive value.
pub struct Signal<T, N> {
    value: T,
    subscribers: Vec<(WidgetId, N)>,
}

impl<T, N> Signal<T, N> {
    /// No widget is registered twice.
    #[verifier::type_invariant]
    spec fn inv(&self) -> bool {
        unique_ids(self.subscribers@)
    }

    /// The current value.
    pub closed spec fn value(&self) -> T {
        self.value
    }

    /// The subscribers, in storage order.
    pub closed spec fn subs(&self) -> Seq<(WidgetId, N)> {
        self.subscribers@
    }

    /// A signal holding `val`, with no subscriber.
    pub fn new(val: T) -> (r: Self)
        ensures
            r.value() == val,
            r.subs() == Seq::<(WidgetId, N)>::empty(),
    {
        Signal { value: val, subscribers: Vec::new() }
    }

    /// The subscribers, for the runtime to reach their handles; no widget
    /// is registered twice.
    pub fn subscribers(&self) -> (r: &Vec<(WidgetId, N)>)
        ensures
            r@ == self.subs(),
            unique_ids(r@),
    {
        proof {
            use_type_invariant(self);
        }
        &self.subscribers
    }

    /// Registers `notify` as the handle of widget `id`, replacing the one it
    /// had.
    pub fn subscribe(&mut self, id: WidgetId, notify: N)
        ensures
            final(self).subs() == upsert(old(self).subs(), id, notify),
            unique_ids(final(self).subs()),
            final(self).value() == old(self).value(),
    {
        proof {
            use_type_invariant(&*self);
        }
        let mut subs: Vec<(WidgetId, N)> = Vec::new();
        std::mem::swap(&mut subs, &mut self.subscribers);
        let ghost s0 = subs@;
        let mut i: usize = 0;
        while i < subs.len() && subs[i].0 != id
            invariant
                subs@ == s0,
                unique_ids(s0),
                i <= s0.len(),
                forall|j: int| 0 <= j < i ==> s0[j].0 != id,
            decreases s0.len() - i,
        {
            i = i + 1;
        }
        if i < subs.len() {
            proof {
                let c = choose|c: int| 0 <= c < s0.len() && s0[c].0 == id;
                assert(c == i as int);
            }
            subs.set(i, (id, notify));
            assert(subs@ == s0.update(i as int, (id, notify)));
            proof {
                let t = subs@;
                assert forall|a: int, b: int| 0 <= a < b < t.len() implies t[a].0 != t[b].0 by {
                    assert(s0[a].0 != s0[b].0);
                }
            }
        } else {
            proof {
                lemma_push_new_id_unique(s0, id, notify);
            }
            subs.push((id, notify));
        }
        self.subscribers = subs;
    }

    /// Keeps the subscribers whose flag in `alive` is set (the runtime has
    /// marked those dirty), dropping the others.
    pub fn notify(&mut self, alive: &Vec<bool>)
        requires
            alive@.len() == old(self).subs().len(),
        ensures
            final(self).subs() == retain_alive(old(self).subs(), alive@),
            final(self).value() == old(self).value(),
    {
        proof {
            use_type_invariant(&*self);
        }
        let mut subs: Vec<(WidgetId, N)> = Vec::new();
        std::mem::swap(&mut subs, &mut self.subscribers);
        proof {
            lemma_retain_unique(subs@, alive@);
        }
        retain_flagged(&mut subs, alive);
        self.subscribers = subs;
    }
}

/// Appending a widget that is not registered keeps the ids unique.
proof fn lemma_push_new_id_unique<N>(subs: Seq<(WidgetId, N)>, id: WidgetId, n: N)
    requires
        unique_ids(subs),
        forall|j: int| 0 <= j < subs.len() ==> subs[j].0 != id,
    ensures
        unique_ids(subs.push((id, n))),
{
    let t = subs.push((id, n));
    assert forall|a: int, b: int| 0 <= a < b < t.len() implies t[a].0 != t[b].0 by {
        assert(t[a] == subs[a]);
        if b < subs.len() {
            assert(t[b] == subs[b]);
        }
    }
}

impl<T: Clone, N> Signal<T, N> {
    /// Reads the value.
    pub fn get(&self) -> (r: T)
        ensures
            cloned(self.value(), r),
    {
        self.value.clone()
    }

    /// Replaces the value and keeps the subscribers whose flag in `alive`
    /// is set.
    pub fn set(&mut self, val: T, alive: &Vec<bool>)
        requires
            alive@.len() == old(self).subs().len(),
        ensures
            final(self).value() == val,
            final(self).subs() == retain_alive(old(self).subs(), alive@),
    {
        proof {
            use_type_invariant(&*self);
        }
        self.value = val;
        self.notify(alive);
    }

    /// Replaces the value by what `f` makes of it and keeps the subscribers
    /// whose flag in `alive` is set.
    pub fn update<F: FnOnce(&T) -> T>(&mut self, f: F, alive: &Vec<bool>)
        requires
            alive@.len() == old(self).subs().len(),
            f.requires((&old(self).value(),)),
        ensures
            f.ensures((&old(self).value(),), final(self).value()),
            final(self).subs() == retain_alive(old(self).subs(), alive@),
    {
        proof {
            use_type_invariant(&*self);
        }
        let v = f(&self.value);
        self.value = v;
        self.notify(alive);
    }
}

/// After `subscribe(id, n)` widget `id` is registered once, with handle
/// `n`, and every other widget keeps its registration.
pub proof fn law_subscribe_registers<N>(subs: Seq<(WidgetId, N)>, id: WidgetId, n: N, i: int)
    requires
        unique_ids(subs),
        0 <= i < subs.len(),
        subs[i].0 != id,
    ensures
        upsert(subs, id, n).contains((id, n)),
        upsert(subs, id, n).contains(subs[i]),
{
    let u = upsert(subs, id, n);
    if exists|j: int| 0 <= j < subs.len() && subs[j].0 == id {
        let j = choose|j: int| 0 <= j < subs.len() && subs[j].0 == id;
        assert(u[j] == (id, n));
        assert(u[i] == subs[i]);
    } else {
        assert(u[subs.len() as int] == (id, n));
        assert(u[i] == subs[i]);
    }
}

} // verus!
