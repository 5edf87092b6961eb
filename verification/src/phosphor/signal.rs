//! State of a reactive signal: its value, the widgets subscribed to it,
//! and a version counter.
//!
//! A signal is shared between widgets behind a lock by the runtime glue;
//! this is the state under that lock. A subscriber is a widget id with a
//! notification handle `N`. Whether a handle still reaches a live widget is
//! known only to the runtime, which passes one flag per subscriber when it
//! notifies; dead subscribers are pruned then.

use crate::ids::{WidgetId, NULL_WIDGET_ID_RAW};
use crate::halogen::signal::lemma_retain_unique;
use crate::subscribers::{retain_alive, retain_flagged, unique_ids};
use vstd::prelude::*;

verus! {

/// Marks a widget as needing rebuild. Signals hold one handle to it per
/// subscribed widget; the tree implements it.
pub trait DirtyNotify: Send + Sync {
    fn mark_dirty(&self);
}

/// The subscribers not registered under `id`, in their order.
pub open spec fn without_id<N>(subs: Seq<(WidgetId, N)>, id: WidgetId) -> Seq<(WidgetId, N)>
    decreases subs.len(),
{
    if subs.len() == 0 {
        Seq::empty()
    } else {
        let rest = without_id(subs.drop_last(), id);
        if subs.last().0 != id {
            rest.push(subs.last())
        } else {
            rest
        }
    }
}

/// Whether some subscriber is registered under `id`.
pub open spec fn has_subscriber<N>(subs: Seq<(WidgetId, N)>, id: WidgetId) -> bool {
    exists|i: int| 0 <= i < subs.len() && subs[i].0 == id
}

/// Subscribers after `id` subscribes with handle `n`: unchanged when `id`
/// is already there, else the new subscriber is appended.
pub open spec fn with_subscriber<N>(subs: Seq<(WidgetId, N)>, id: WidgetId, n: N) -> Seq<(WidgetId, N)> {
    if has_subscriber(subs, id) {
        subs
    } else {
        subs.push((id, n))
    }
}

/// The state of a reactive value.
pub struct Signal<T, N> {
    value: T,
    subscribers: Vec<(WidgetId, N)>,
    version: u64,
}

impl<T, N> Signal<T, N> {
    /// No widget is registered twice.
    #[verifier::type_invariant]
    spec fn inv(&self) -> bool {
        unique_ids(self.subscribers@)
    }

    /// The current value.
    pub closed spec fn value(&self) -> T {
        self.value
    }

    /// The subscribers, in subscription order.
    pub closed spec fn subs(&self) -> Seq<(WidgetId, N)> {
        self.subscribers@
    }

    /// The number of changes so far, modulo 2^64.
    pub closed spec fn changes(&self) -> u64 {
        self.version
    }

    /// A signal holding `value`, with no subscriber, at version 0.
    pub fn new(value: T) -> (r: Self)
        ensures
            r.value() == value,
            r.subs() == Seq::<(WidgetId, N)>::empty(),
            r.changes() == 0,
    {
        Signal { value, subscribers: Vec::new(), version: 0 }
    }

    /// The version counter: how many times the value was set or updated,
    /// wrapping at 2^64.
    pub fn version(&self) -> (r: u64)
        ensures
            r == self.changes(),
    {
        self.version
    }

    /// The subscribers, for the runtime to reach their handles; no widget
    /// is registered twice.
    pub fn subscribers(&self) -> (r: &Vec<(WidgetId, N)>)
        ensures
            r@ == self.subs(),
            unique_ids(r@),
    {
        proof {
            use_type_invariant(self);
        }
        &self.subscribers
    }

    /// Registers `id` with handle `notify`, unless `id` is already
    /// subscribed (then its first handle is kept).
    pub fn subscribe(&mut self, id: WidgetId, notify: N)
        ensures
            final(self).subs() == with_subscriber(old(self).subs(), id, notify),
            unique_ids(final(self).subs()),
            final(self).value() == old(self).value(),
            final(self).changes() == old(self).changes(),
    {
        proof {
            use_type_invariant(&*self);
        }
        let mut i: usize = 0;
        while i < self.subscribers.len()
            invariant
                i <= self.subscribers@.len(),
                unique_ids(self.subscribers@),
                forall|j: int| 0 <= j < i ==> self.subscribers@[j].0 != id,
            decreases self.subscribers@.len() - i,
        {
            if self.subscribers[i].0 == id {
                return;
            }
            i = i + 1;
        }
        proof {
            law_subscribe_keeps_ids_unique(self.subscribers@, id, notify);
        }
        let mut subs: Vec<(WidgetId, N)> = Vec::new();
        std::mem::swap(&mut subs, &mut self.subscribers);
        subs.push((id, notify));
        self.subscribers = subs;
    }

    /// Registers a subscriber that belongs to no widget, under the null id.
    pub fn subscribe_arc(&mut self, notify: N)
        ensures
            final(self).subs() == with_subscriber(old(self).subs(), WidgetId { raw: NULL_WIDGET_ID_RAW }, notify),
            final(self).value() == old(self).value(),
            final(self).changes() == old(self).changes(),
    {
        self.subscribe(WidgetId::default(), notify);
    }

    /// Drops every subscriber registered under `id`.
    pub fn unsubscribe(&mut self, id: WidgetId)
        ensures
            final(self).subs() == without_id(old(self).subs(), id),
            final(self).value() == old(self).value(),
            final(self).changes() == old(self).changes(),
    {
        proof {
            use_type_invariant(&*self);
        }
        let mut v: Vec<(WidgetId, N)> = Vec::new();
        std::mem::swap(&mut v, &mut self.subscribers);
        let ghost subs = v@;
        let ghost mut k: int = 0;
        let mut i: usize = 0;
        while i < v.len()
            invariant
                0 <= i <= k <= subs.len(),
                v@.len() - i == subs.len() - k,
                v@.take(i as int) == without_id(subs.take(k), id),
                v@.skip(i as int) == subs.skip(k),
            decreases v@.len() - i,
        {
            let ghost cur = v@;
            proof {
                assert(cur[i as int] == cur.skip(i as int)[0]);
                assert(subs[k] == subs.skip(k)[0]);
                assert(subs.take(k + 1).drop_last() =~= subs.take(k));
                assert(subs.take(k + 1).last() == subs[k]);
            }
            if v[i].0 == id {
                v.remove(i);
                proof {
                    assert(v@.take(i as int) =~= cur.take(i as int));
                    assert(v@.skip(i as int) =~= cur.skip(i as int + 1));
                    assert(subs.skip(k + 1) =~= subs.skip(k).skip(1));
                    assert(cur.skip(i as int + 1) =~= cur.skip(i as int).skip(1));
                    k = k + 1;
                }
            } else {
                proof {
                    assert(cur.take(i as int + 1) =~= cur.take(i as int).push(cur[i as int]));
                    assert(subs.skip(k + 1) =~= subs.skip(k).skip(1));
                    assert(cur.skip(i as int + 1) =~= cur.skip(i as int).skip(1));
                    k = k + 1;
                }
                i = i + 1;
            }
        }
        proof {
            assert(subs.take(k) =~= subs);
            assert(v@.take(i as int) =~= v@);
            lemma_without_id_unique(subs, id);
        }
        self.subscribers = v;
    }

    /// Keeps the subscribers whose flag in `alive` is set, in their order;
    /// `alive` holds one flag per subscriber, in the same order.
    pub fn notify_subscribers(&mut self, alive: &Vec<bool>)
        requires
            alive@.len() == old(self).subs().len(),
        ensures
            final(self).subs() == retain_alive(old(self).subs(), alive@),
            final(self).value() == old(self).value(),
            final(self).changes() == old(self).changes(),
    {
        proof {
            use_type_invariant(&*self);
        }
        let mut v: Vec<(WidgetId, N)> = Vec::new();
        std::mem::swap(&mut v, &mut self.subscribers);
        proof {
            lemma_retain_unique(v@, alive@);
        }
        retain_flagged(&mut v, alive);
        self.subscribers = v;
    }
}

pub open spec fn next_version(v: u64) -> u64 {
    if v == u64::MAX {
        0
    } else {
        (v + 1) as u64
    }
}

impl<T: Clone, N> Signal<T, N> {
    /// Reads the value. When a widget is being built (`scope` names it and
    /// its handle), that widget is subscribed first, as `subscribe` does.
    pub fn get(&mut self, scope: Option<(WidgetId, N)>) -> (r: T)
        ensures
            cloned(old(self).value(), r),
            final(self).value() == old(self).value(),
            final(self).changes() == old(self).changes(),
            final(self).subs() == (match scope {
                Some((id, n)) => with_subscriber(old(self).subs(), id, n),
                None => old(self).subs(),
            }),
    {
        match scope {
            Some((id, n)) => self.subscribe(id, n),
            None => {},
        }
        self.value.clone()
    }

    /// Reads the value without subscribing anyone.
    pub fn get_untracked(&self) -> (r: T)
        ensures
            cloned(self.value(), r),
    {
        self.value.clone()
    }

    /// Replaces the value, counts the change, and keeps the subscribers
    /// whose flag in `alive` is set (the runtime has notified those).
    pub fn set(&mut self, value: T, alive: &Vec<bool>)
        requires
            alive@.len() == old(self).subs().len(),
        ensures
            final(self).value() == value,
            final(self).changes() == next_version(old(self).changes()),
            final(self).subs() == retain_alive(old(self).subs(), alive@),
    {
        proof {
            use_type_invariant(&*self);
        }
        self.value = value;
        self.version = self.version.wrapping_add(1);
        self.notify_subscribers(alive);
    }

    /// Replaces the value by what `f` makes of it, counts the change, and
    /// keeps the subscribers whose flag in `alive` is set.
    pub fn update<F: FnOnce(&T) -> T>(&mut self, f: F, alive: &Vec<bool>)
        requires
            alive@.len() == old(self).subs().len(),
            f.requires((&old(self).value(),)),
        ensures
            f.ensures((&old(self).value(),), final(self).value()),
            final(self).changes() == next_version(old(self).changes()),
            final(self).subs() == retain_alive(old(self).subs(), alive@),
    {
        proof {
            use_type_invariant(&*self);
        }
        let v = f(&self.value);
        self.value = v;
        self.version = self.version.wrapping_add(1);
        self.notify_subscribers(alive);
    }
}

/// A signal holding `value`; the same as `Signal::new`.
pub fn signal<T, N>(value: T) -> (r: Signal<T, N>)
    ensures
        r.value() == value,
        r.subs() == Seq::<(WidgetId, N)>::empty(),
        r.changes() == 0,
{
    Signal::new(value)
}

/// Dropping the subscribers of one widget keeps the rest, so the ids stay
/// unique.
proof fn lemma_without_id_unique<N>(subs: Seq<(WidgetId, N)>, id: WidgetId)
    requires
        unique_ids(subs),
    ensures
        unique_ids(without_id(subs, id)),
        forall|x: (WidgetId, N)| #[trigger] without_id(subs, id).contains(x) ==> subs.contains(x),
    decreases subs.len(),
{
    if subs.len() > 0 {
        let rest = subs.drop_last();
        assert(unique_ids(rest)) by {
            assert forall|a: int, b: int| 0 <= a < b < rest.len() implies rest[a].0 != rest[b].0 by {
                assert(rest[a] == subs[a] && rest[b] == subs[b]);
            }
        }
        lemma_without_id_unique(rest, id);
        let r = without_id(rest, id);
        let full = without_id(subs, id);
        assert(full == if subs.last().0 != id { r.push(subs.last()) } else { r });
        assert forall|x: (WidgetId, N)| #[trigger] full.contains(x) implies subs.contains(x) by {
            let k = choose|k: int| 0 <= k < full.len() && full[k] == x;
            if k < r.len() {
                assert(full[k] == r[k]);
                assert(r.contains(x));
                let j = choose|j: int| 0 <= j < rest.len() && rest[j] == x;
                assert(subs[j] == rest[j]);
            } else {
                assert(subs[subs.len() - 1] == x);
            }
        }
        if subs.last().0 != id {
            let t = r.push(subs.last());
            assert forall|a: int, b: int| 0 <= a < b < t.len() implies t[a].0 != t[b].0 by {
                if b == r.len() {
                    assert(t[a] == r[a]);
                    assert(r.contains(r[a]));
                    let j = choose|j: int| 0 <= j < rest.len() && rest[j] == r[a];
                    assert(subs[j] == rest[j]);
                    assert(t[b] == subs[subs.len() - 1]);
                } else {
                    assert(t[a] == r[a] && t[b] == r[b]);
                }
            }
        }
    }
}

/// Every set or update advances the version by one; the count wraps to 0
/// after `u64::MAX`, so it grows strictly below that value.
pub proof fn law_version_advances(v: u64)
    ensures
        v < u64::MAX ==> next_version(v) == v + 1,
        v < u64::MAX ==> next_version(v) > v,
        v == u64::MAX ==> next_version(v) == 0,
{
}

/// The version after `n` changes starting at version `v`.
pub open spec fn versions_after(v: u64, n: nat) -> u64
    decreases n,
{
    if n == 0 {
        v
    } else {
        next_version(versions_after(v, (n - 1) as nat))
    }
}

/// How many of the operations of a run were changes (sets or updates).
pub open spec fn change_count(changed: Seq<bool>) -> nat
    decreases changed.len(),
{
    if changed.len() == 0 {
        0
    } else {
        change_count(changed.drop_last()) + if changed.last() {
            1nat
        } else {
            0nat
        }
    }
}

/// `n` changes from version `v` give version `v + n` modulo 2^64, which is
/// `v + n` itself as long as that does not exceed `u64::MAX`.
pub proof fn law_versions_after(v: u64, n: nat)
    ensures
        versions_after(v, n) as int == (v + n) % 0x1_0000_0000_0000_0000,
        v + n <= u64::MAX ==> versions_after(v, n) == v + n,
    decreases n,
{
    if n > 0 {
        law_versions_after(v, (n - 1) as nat);
        let a: int = v + n - 1;
        let m: int = 0x1_0000_0000_0000_0000;
        assert(a >= 0);
        let q = a / m;
        let r = a % m;
        assert(a == q * m + r && 0 <= r < m) by (nonlinear_arith)
            requires
                q == a / m,
                r == a % m,
                m > 0,
        ;
        if r == m - 1 {
            assert((a + 1) % m == 0) by (nonlinear_arith)
                requires
                    a == q * m + r,
                    r == m - 1,
                    m > 0,
                    q >= 0,
            ;
        } else {
            assert((a + 1) % m == r + 1) by (nonlinear_arith)
                requires
                    a == q * m + r,
                    0 <= r < m - 1,
                    m > 0,
                    q >= 0,
            ;
        }
    }
}

/// Over a run of operations on a signal (or on its clones, which share its
/// state), each either a change (set or update), which advances the version
/// by one, or anything else (get, get_untracked, subscribe, clone), which
/// leaves it as it is, the final version is the first one advanced once per
/// change.
pub proof fn law_version_counts_changes(versions: Seq<u64>, changed: Seq<bool>)
    requires
        versions.len() == changed.len() + 1,
        forall|i: int|
            0 <= i < changed.len() ==> #[trigger] versions[i + 1] == if changed[i] {
                next_version(versions[i])
            } else {
                versions[i]
            },
    ensures
        versions.last() == versions_after(versions[0], change_count(changed)),
    decreases changed.len(),
{
    if changed.len() > 0 {
        let k = changed.len() - 1;
        let vs = versions.drop_last();
        let cs = changed.drop_last();
        assert forall|i: int| 0 <= i < cs.len() implies #[trigger] vs[i + 1] == if cs[i] {
            next_version(vs[i])
        } else {
            vs[i]
        } by {
            assert(versions[i + 1] == vs[i + 1]);
        }
        law_version_counts_changes(vs, cs);
        assert(versions[k + 1] == if changed[k] { next_version(versions[k]) } else { versions[k] });
        assert(vs.last() == versions[k]);
    }
}

/// Subscribing a widget that is already subscribed changes nothing: each
/// widget is notified at most once per change.
pub proof fn law_subscribe_idempotent<N>(subs: Seq<(WidgetId, N)>, id: WidgetId, n: N, m: N)
    ensures
        with_subscriber(with_subscriber(subs, id, n), id, m) == with_subscriber(subs, id, n),
        has_subscriber(with_subscriber(subs, id, n), id),
{
    if !has_subscriber(subs, id) {
        let s2 = subs.push((id, n));
        assert(s2[subs.len() as int].0 == id);
    }
}

/// No widget id is ever registered twice.
pub proof fn law_subscribe_keeps_ids_unique<N>(subs: Seq<(WidgetId, N)>, id: WidgetId, n: N)
    requires
        unique_ids(subs),
    ensures
        unique_ids(with_subscriber(subs, id, n)),
{
    if !has_subscriber(subs, id) {
        let t = subs.push((id, n));
        assert forall|a: int, b: int| 0 <= a < b < t.len() implies t[a].0 != t[b].0 by {
            if b == subs.len() {
                assert(t[a] == subs[a]);
            } else {
                assert(t[a] == subs[a] && t[b] == subs[b]);
            }
        }
    }
}

/// After `unsubscribe(id)` no subscriber is registered under `id`, and
/// every other widget keeps its subscription.
pub proof fn law_unsubscribe_removes<N>(subs: Seq<(WidgetId, N)>, id: WidgetId, other: WidgetId)
    requires
        other != id,
    ensures
        !has_subscriber(without_id(subs, id), id),
        has_subscriber(without_id(subs, id), other) == has_subscriber(subs, other),
    decreases subs.len(),
{
    if subs.len() > 0 {
        let rest = subs.drop_last();
        law_unsubscribe_removes(rest, id, other);
        let r = without_id(rest, id);
        let full = without_id(subs, id);
        assert(full == if subs.last().0 != id { r.push(subs.last()) } else { r });
        if has_subscriber(full, id) {
            let i = choose|i: int| 0 <= i < full.len() && full[i].0 == id;
            if i < r.len() {
                assert(full[i] == r[i]);
            }
        }
        if has_subscriber(full, other) {
            let i = choose|i: int| 0 <= i < full.len() && full[i].0 == other;
            if i < r.len() {
                assert(full[i] == r[i]);
                let j = choose|j: int| 0 <= j < rest.len() && rest[j].0 == other;
                assert(subs[j] == rest[j]);
            } else {
                assert(subs[subs.len() - 1].0 == other);
            }
        }
        if has_subscriber(subs, other) {
            let j = choose|j: int| 0 <= j < subs.len() && subs[j].0 == other;
            if j < rest.len() {
                assert(rest[j] == subs[j]);
                let i = choose|i: int| 0 <= i < r.len() && r[i].0 == other;
                assert(full[i] == r[i]);
            } else {
                assert(full[r.len() as int] == subs.last());
            }
        }
    }
}

} // verus!
