//! The widget tree: mounting, subtree removal, reconciliation of rebuilt
//! children, dirty tracking and the rebuild walk.
//!
//! The tree holds the structure of the mounted widgets (parent and child
//! links, keys, type identities, dirty flags). The widget instances, their
//! layout nodes and resolved bounds are held beside it by the runtime, which
//! performs what each operation reports (mounted and removed handles).

use crate::ids::WidgetId;
use crate::matching::{
    candidate, keys_unique, law_same_children_match_in_place, lemma_candidate_injective, lemma_candidate_range,
};
use crate::phosphor::matching::{plan_children, spec_keys};
use crate::phosphor::store::{
    advanced_within, canonical, freed_only, generation_of, lemma_agrees, lemma_freed_advance, lemma_freed_step,
    lemma_freed_trans, lemma_fresh_key, lemma_insert_fresh, next_generation, prior_generation, slot_of, store_agrees, store_contents,
    store_generations, store_get, store_ids, store_insert, store_len, store_new, store_remove, store_replace,
    NodeEntry, NodeMap,
};
use vstd::prelude::*;
use vstd::set_lib::lemma_len_subset;

verus! {

/// What reconciliation needs to know of a widget returned by `build`: its
/// optional key and the identity of its concrete type.
#[derive(Debug, Clone)]
pub struct NodeSpec {
    pub key: Option<String>,
    pub type_tag: u64,
}

/// A key as a sequence of characters.
pub open spec fn key_view(k: Option<String>) -> Option<Seq<char>> {
    match k {
        Some(s) => Some(s@),
        None => None,
    }
}

/// The mathematical content of a node record.
pub struct NodeView {
    pub children: Seq<WidgetId>,
    pub parent: Option<WidgetId>,
    pub key: Option<Seq<char>>,
    pub type_tag: u64,
    pub dirty: bool,
}

impl View for NodeEntry {
    type V = NodeView;

    open spec fn view(&self) -> NodeView {
        NodeView {
            children: self.children@,
            parent: self.parent,
            key: key_view(self.key),
            type_tag: self.type_tag,
            dirty: self.dirty,
        }
    }
}

/// The node records of a store, by handle encoding.
pub open spec fn node_views(m: NodeMap) -> Map<u64, NodeView> {
    store_contents(m).map_values(|e: NodeEntry| e@)
}

/// `s` is the union of the subtrees rooted at `tops`: it holds the tops,
/// is closed under children, and every other member's parent is a member.
pub open spec fn is_subtree_union(n: Map<u64, NodeView>, tops: Set<u64>, s: Set<u64>) -> bool {
    &&& s.subset_of(n.dom())
    &&& tops.subset_of(s)
    &&& forall|x: u64, i: int|
        s.contains(x) && 0 <= i < n[x].children.len() ==> s.contains(
            #[trigger] n[x].children[i].raw,
        )
    &&& forall|x: u64|
        #![trigger s.contains(x)]
        s.contains(x) && !tops.contains(x) ==> n[x].parent is Some && s.contains(
            n[x].parent->0.raw,
        )
}

/// The encodings of the handles in a list.
pub open spec fn raw_set(s: Seq<WidgetId>) -> Set<u64> {
    Set::new(|r: u64| s.contains(WidgetId { raw: r }))
}

/// Appending a handle adds its encoding.
pub proof fn lemma_raw_set_push(s: Seq<WidgetId>, w: WidgetId)
    ensures
        raw_set(s.push(w)) == raw_set(s).insert(w.raw),
{
    assert forall|r: u64| raw_set(s.push(w)).contains(r) <==> raw_set(s).insert(w.raw).contains(r) by {
        let x = WidgetId { raw: r };
        if s.push(w).contains(x) && r != w.raw {
            let j = choose|j: int| 0 <= j < s.push(w).len() && s.push(w)[j] == x;
            assert(s[j] == x);
        }
        if s.contains(x) {
            let j = choose|j: int| 0 <= j < s.len() && s[j] == x;
            assert(s.push(w)[j] == x);
        }
        if r == w.raw {
            assert(s.push(w)[s.len() as int] == x);
        }
    }
    assert(raw_set(s.push(w)) =~= raw_set(s).insert(w.raw));
}

/// Copy of a key.
pub fn copy_key(k: &Option<String>) -> (r: Option<String>)
    ensures
        key_view(r) == key_view(*k),
{
    match k {
        Some(s) => Some(s.clone()),
        None => None,
    }
}

/// Copy of a list of handles.
pub fn copy_ids(v: &Vec<WidgetId>) -> (r: Vec<WidgetId>)
    ensures
        r@ == v@,
{
    let mut r: Vec<WidgetId> = Vec::new();
    let mut i: usize = 0;
    while i < v.len()
        invariant
            i <= v.len(),
            r@ == v@.take(i as int),
        decreases v.len() - i,
    {
        r.push(v[i]);
        i = i + 1;
        assert(r@ =~= v@.take(i as int));
    }
    assert(r@ =~= v@);
    r
}

/// Copy of a node record.
pub fn copy_entry(e: &NodeEntry) -> (r: NodeEntry)
    ensures
        r@ == e@,
{
    NodeEntry {
        children: copy_ids(&e.children),
        parent: e.parent,
        key: copy_key(&e.key),
        type_tag: e.type_tag,
        dirty: e.dirty,
    }
}

/// Whether a key encoding is canonical (odd generation half).
pub fn is_canonical(raw: u64) -> (r: bool)
    ensures
        r == canonical(raw),
{
    (raw / 0x1_0000_0000u64) % 2 == 1
}

/// Position of a handle in a list.
pub fn index_of(v: &Vec<WidgetId>, id: WidgetId) -> (r: Option<usize>)
    ensures
        r matches Some(i) ==> i < v.len() && v@[i as int] == id,
        r is None ==> !v@.contains(id),
{
    let mut i: usize = 0;
    while i < v.len()
        invariant
            i <= v.len(),
            forall|j: int| 0 <= j < i ==> v@[j] != id,
        decreases v.len() - i,
    {
        if v[i].raw == id.raw {
            return Some(i);
        }
        i = i + 1;
    }
    None
}

/// Removing the element at `i` from a list without repeats removes exactly
/// that element.
pub proof fn lemma_remove_no_dup(s: Seq<WidgetId>, i: int)
    requires
        s.no_duplicates(),
        0 <= i < s.len(),
    ensures
        s.remove(i).no_duplicates(),
        forall|w: WidgetId| s.remove(i).contains(w) <==> (s.contains(w) && w != s[i]),
{
    let r = s.remove(i);
    assert forall|w: WidgetId| r.contains(w) <==> (s.contains(w) && w != s[i]) by {
        if r.contains(w) {
            let j = choose|j: int| 0 <= j < r.len() && r[j] == w;
            if j < i {
                assert(s[j] == w);
            } else {
                assert(s[j + 1] == w);
            }
        }
        if s.contains(w) && w != s[i] {
            let j = choose|j: int| 0 <= j < s.len() && s[j] == w;
            if j < i {
                assert(r[j] == w);
            } else {
                assert(j != i);
                assert(r[j - 1] == w);
            }
        }
    }
}

/// Removing a record removes its view.
pub proof fn lemma_views_remove(m1: NodeMap, m2: NodeMap, x: u64)
    requires
        store_contents(m2) == store_contents(m1).remove(x),
    ensures
        node_views(m2) == node_views(m1).remove(x),
{
    assert(node_views(m2) =~= node_views(m1).remove(x));
}

/// Inserting a record inserts its view.
pub proof fn lemma_views_insert(m1: NodeMap, m2: NodeMap, x: u64, e: NodeEntry)
    requires
        store_contents(m2) == store_contents(m1).insert(x, e),
    ensures
        node_views(m2) == node_views(m1).insert(x, e@),
{
    assert(node_views(m2) =~= node_views(m1).insert(x, e@));
}

/// The keys of the children listed in `kids`.
pub open spec fn child_keys(n: Map<u64, NodeView>, kids: Seq<WidgetId>) -> Seq<Option<Seq<char>>> {
    kids.map_values(|w: WidgetId| n[w.raw].key)
}

/// The old child (index into `kids`) that new child `i` is matched with,
/// or -1.
pub open spec fn matched(n: Map<u64, NodeView>, kids: Seq<WidgetId>, new: Seq<NodeSpec>, i: int) -> int {
    candidate(child_keys(n, kids), spec_keys(new), i)
}

/// New child `i` takes over its matched old child: there is one and it has
/// the same type.
pub open spec fn reuses(n: Map<u64, NodeView>, kids: Seq<WidgetId>, new: Seq<NodeSpec>, i: int) -> bool {
    let c = matched(n, kids, new, i);
    c >= 0 && n[kids[c].raw].type_tag == new[i].type_tag
}

/// Old child `j` is taken over by some new child.
pub open spec fn kept(n: Map<u64, NodeView>, kids: Seq<WidgetId>, new: Seq<NodeSpec>, j: int) -> bool {
    exists|i: int| 0 <= i < new.len() && #[trigger] reuses(n, kids, new, i) && matched(n, kids, new, i) == j
}

/// The old children that no new child takes over.
pub open spec fn dropped(n: Map<u64, NodeView>, kids: Seq<WidgetId>, new: Seq<NodeSpec>) -> Set<u64> {
    Set::new(|r: u64| exists|j: int| 0 <= j < kids.len() && kids[j].raw == r && !kept(n, kids, new, j))
}

/// What reconciliation did to the child list of a widget.
pub struct ReconcileOutcome {
    /// The new child list, one handle per rebuilt child, in order.
    pub children: Vec<WidgetId>,
    /// Whether each rebuilt child took over an existing widget (`true`) or
    /// was freshly mounted (`false`).
    pub reused: Vec<bool>,
    /// All widgets removed from the tree, each once.
    pub removed: Vec<WidgetId>,
}

/// Pushes `kids` onto `stack` last-first, so that the first child is popped
/// first.
pub fn push_reversed(stack: &mut Vec<WidgetId>, kids: &Vec<WidgetId>)
    ensures
        final(stack)@ == old(stack)@ + kids@.reverse(),
{
    let ghost s0 = stack@;
    let mut k: usize = kids.len();
    while k > 0
        invariant
            k <= kids@.len(),
            stack@ == s0 + kids@.subrange(k as int, kids@.len() as int).reverse(),
        decreases k,
    {
        k = k - 1;
        stack.push(kids[k]);
        assert(kids@.subrange(k as int, kids@.len() as int).reverse() =~= kids@.subrange(
            k as int + 1,
            kids@.len() as int,
        ).reverse().push(kids@[k as int]));
    }
    assert(kids@.subrange(0, kids@.len() as int) =~= kids@);
}

/// Whether a list of handles contains `id`.
pub fn contains_id(v: &Vec<WidgetId>, id: WidgetId) -> (r: bool)
    ensures
        r == v@.contains(id),
{
    match index_of(v, id) {
        Some(_) => true,
        None => false,
    }
}

/// State of one rebuild pass: widgets still to visit (top of the stack
/// next), the widgets queued dirty when the pass began, and the widget just
/// handed out for building, whose children are visited next.
pub struct RebuildWalk {
    stack: Vec<WidgetId>,
    dirty: Vec<WidgetId>,
    pending: Option<WidgetId>,
}

impl RebuildWalk {
    pub closed spec fn stack_view(&self) -> Seq<WidgetId> {
        self.stack@
    }

    pub closed spec fn dirty_view(&self) -> Seq<WidgetId> {
        self.dirty@
    }

    pub closed spec fn pending_view(&self) -> Option<WidgetId> {
        self.pending
    }
}

/// The widgets a pass still has to visit, once the children of the widget
/// just built are scheduled (top of the stack last).
pub open spec fn walk_frontier(
    n: Map<u64, NodeView>,
    stack: Seq<WidgetId>,
    pending: Option<WidgetId>,
) -> Seq<WidgetId> {
    match pending {
        Some(p) => if n.contains_key(p.raw) {
            stack + n[p.raw].children.reverse()
        } else {
            stack
        },
        None => stack,
    }
}

/// `k` is `x` or lies below it, at most `fuel` parent links away.
pub open spec fn under(n: Map<u64, NodeView>, k: u64, x: u64, fuel: nat) -> bool
    decreases fuel,
{
    n.contains_key(k) && (k == x || (fuel > 0 && n[k].parent is Some && under(
        n,
        n[k].parent->0.raw,
        x,
        (fuel - 1) as nat,
    )))
}

/// Every widget carrying its dirty flag lies in the subtree of a widget of
/// `frontier`.
pub open spec fn dirt_covered(n: Map<u64, NodeView>, frontier: Seq<WidgetId>) -> bool {
    forall|k: u64|
        #[trigger] n.contains_key(k) && n[k].dirty ==> exists|i: int, f: nat|
            0 <= i < frontier.len() && #[trigger] under(n, k, frontier[i].raw, f)
}

/// A rebuild pass in state `w` still reaches every widget that carries its
/// dirty flag, and the widget it has just built is clean.
pub open spec fn pass_covers(n: Map<u64, NodeView>, w: RebuildWalk) -> bool {
    &&& dirt_covered(n, walk_frontier(n, w.stack_view(), w.pending_view()))
    &&& w.pending_view() matches Some(p) ==> (n.contains_key(p.raw) ==> !n[p.raw].dirty)
}

/// What lies under a widget lies in the map, and so does that widget.
pub proof fn lemma_under_top(n: Map<u64, NodeView>, k: u64, x: u64, f: nat)
    requires
        under(n, k, x, f),
    ensures
        n.contains_key(x),
    decreases f,
{
    if k != x {
        lemma_under_top(n, n[k].parent->0.raw, x, (f - 1) as nat);
    }
}

/// Two maps with the same widgets and the same parent links agree on what
/// lies under what.
pub proof fn lemma_under_same_links(n: Map<u64, NodeView>, m: Map<u64, NodeView>, k: u64, x: u64, f: nat)
    requires
        under(n, k, x, f),
        n.dom() == m.dom(),
        forall|j: u64| #[trigger] n.contains_key(j) ==> m[j].parent == n[j].parent,
    ensures
        under(m, k, x, f),
    decreases f,
{
    if k != x {
        lemma_under_same_links(n, m, n[k].parent->0.raw, x, (f - 1) as nat);
    }
}

/// Below a removed widget everything is removed.
pub proof fn lemma_under_gone(n: Map<u64, NodeView>, gone: Set<u64>, k: u64, y: u64, f: nat)
    requires
        under(n, k, y, f),
        gone.contains(y),
        forall|c: u64|
            #[trigger] n.contains_key(c) && n[c].parent is Some ==> n.contains_key(n[c].parent->0.raw)
                && n[n[c].parent->0.raw].children.contains(WidgetId { raw: c }),
        forall|x: u64, i: int|
            gone.contains(x) && 0 <= i < n[x].children.len() ==> gone.contains(#[trigger] n[x].children[i].raw),
    ensures
        gone.contains(k),
    decreases f,
{
    if k != y {
        let q = n[k].parent->0.raw;
        lemma_under_gone(n, gone, q, y, (f - 1) as nat);
        let i = choose|i: int| 0 <= i < n[q].children.len() && n[q].children[i] == WidgetId { raw: k };
        assert(n[q].children[i].raw == k);
    }
}

/// What lies under a widget in the tree before a reconciliation still lies
/// under it afterwards, if it survives.
pub proof fn lemma_under_survives(
    n0: Map<u64, NodeView>,
    n1: Map<u64, NodeView>,
    gone: Set<u64>,
    extra: Set<u64>,
    k: u64,
    y: u64,
    f: nat,
)
    requires
        under(n0, k, y, f),
        n1.contains_key(k),
        n1.dom() == n0.dom().difference(gone).union(extra),
        forall|j: u64| n0.contains_key(j) && n1.contains_key(j) ==> !gone.contains(j),
        forall|j: u64| #[trigger] n0.contains_key(j) && n1.contains_key(j) ==> n1[j].parent == n0[j].parent,
        forall|c: u64|
            #[trigger] n0.contains_key(c) && n0[c].parent is Some ==> n0.contains_key(n0[c].parent->0.raw)
                && n0[n0[c].parent->0.raw].children.contains(WidgetId { raw: c }),
        forall|x: u64, i: int|
            gone.contains(x) && 0 <= i < n0[x].children.len() ==> gone.contains(#[trigger] n0[x].children[i].raw),
    ensures
        under(n1, k, y, f),
    decreases f,
{
    if k != y {
        let q = n0[k].parent->0.raw;
        assert(n0.contains_key(q));
        if gone.contains(q) {
            let i = choose|i: int| 0 <= i < n0[q].children.len() && n0[q].children[i] == WidgetId { raw: k };
            assert(n0[q].children[i].raw == k);
        }
        assert(n1.contains_key(q));
        lemma_under_survives(n0, n1, gone, extra, q, y, (f - 1) as nat);
    }
}

/// Reconciling the children of the widget a pass has just built keeps every
/// dirty widget within reach of the pass.
pub proof fn lemma_reconcile_covers(
    n0: Map<u64, NodeView>,
    n1: Map<u64, NodeView>,
    p: WidgetId,
    cs: Seq<WidgetId>,
    gone: Set<u64>,
    s: Seq<WidgetId>,
)
    requires
        forall|c: u64|
            #[trigger] n0.contains_key(c) && n0[c].parent is Some ==> n0.contains_key(n0[c].parent->0.raw)
                && n0[n0[c].parent->0.raw].children.contains(WidgetId { raw: c }),
        forall|x: u64, i: int|
            gone.contains(x) && 0 <= i < n0[x].children.len() ==> gone.contains(#[trigger] n0[x].children[i].raw),
        n0.contains_key(p.raw),
        n1.dom() == n0.dom().difference(gone).union(raw_set(cs)),
        forall|j: u64| n0.contains_key(j) && n1.contains_key(j) ==> !gone.contains(j),
        forall|j: u64| #[trigger] n0.contains_key(j) && n1.contains_key(j) ==> n1[j].parent == n0[j].parent,
        forall|k: u64|
            #[trigger] n1.contains_key(k) && k != p.raw && !raw_set(cs).contains(k) ==> n1[k] == n0[k],
        n1.contains_key(p.raw),
        n1[p.raw].children == cs,
        !n1[p.raw].dirty,
        forall|j: int|
            0 <= j < n0[p.raw].children.len() ==> gone.contains(#[trigger] n0[p.raw].children[j].raw)
                || cs.contains(n0[p.raw].children[j]),
        dirt_covered(n0, s + n0[p.raw].children.reverse()),
    ensures
        dirt_covered(n1, s + cs.reverse()),
{
    let k0 = n0[p.raw].children;
    let fr0 = s + k0.reverse();
    let fr1 = s + cs.reverse();
    assert forall|k: u64| #[trigger] n1.contains_key(k) && n1[k].dirty implies exists|i: int, f: nat|
        0 <= i < fr1.len() && #[trigger] under(n1, k, fr1[i].raw, f) by {
        if raw_set(cs).contains(k) {
            let i = choose|i: int| 0 <= i < cs.len() && cs[i] == WidgetId { raw: k };
            let idx = s.len() + (cs.len() - 1 - i);
            assert(fr1[idx] == cs[i]);
            assert(under(n1, k, fr1[idx].raw, 0));
        } else {
            assert(k != p.raw);
            assert(n1[k] == n0[k]);
            assert(n0.contains_key(k));
            let (i, f) = choose|i: int, f: nat| 0 <= i < fr0.len() && #[trigger] under(n0, k, fr0[i].raw, f);
            if i < s.len() {
                assert(fr0[i] == s[i] && fr1[i] == s[i]);
                lemma_under_survives(n0, n1, gone, raw_set(cs), k, s[i].raw, f);
            } else {
                let j = k0.len() - 1 - (i - s.len());
                assert(fr0[i] == k0[j]);
                let y = k0[j];
                if gone.contains(y.raw) {
                    lemma_under_gone(n0, gone, k, y.raw, f);
                } else {
                    assert(cs.contains(y));
                    let t = choose|t: int| 0 <= t < cs.len() && cs[t] == y;
                    let idx = s.len() + (cs.len() - 1 - t);
                    assert(fr1[idx] == y);
                    lemma_under_survives(n0, n1, gone, raw_set(cs), k, y.raw, f);
                }
            }
        }
    }
}

/// One step of a rebuild pass.
#[derive(Debug, Clone, Copy, PartialEq, Eq, Structural)]
pub enum WalkStep {
    /// Build this widget and reconcile its children before the next step.
    Build(WidgetId),
    /// This widget is clean; its children are visited next.
    Visit(WidgetId),
    /// The pass is over.
    Done,
}

/// State of one event dispatch: widgets still to consider, top of the stack
/// next, each with whether its children were already scheduled; and whether
/// a widget has consumed the event.
pub struct DispatchWalk {
    stack: Vec<(WidgetId, bool)>,
    consumed: bool,
}

impl DispatchWalk {
    pub closed spec fn stack_view(&self) -> Seq<(WidgetId, bool)> {
        self.stack@
    }

    /// Whether a widget has consumed the event.
    pub closed spec fn consumed_view(&self) -> bool {
        self.consumed
    }

    /// Records what the widget last offered the event answered. Once a
    /// widget consumes the event no other widget is offered it, and the
    /// dispatch's result is that the event was consumed.
    pub fn report(&mut self, consumed: bool)
        ensures
            final(self).consumed_view() == (old(self).consumed_view() || consumed),
            final(self).stack_view() == (if consumed {
                Seq::<(WidgetId, bool)>::empty()
            } else {
                old(self).stack_view()
            }),
    {
        if consumed {
            self.stack = Vec::new();
            self.consumed = true;
        }
    }

    /// Whether a widget consumed the event: the dispatch's result.
    pub fn consumed(&self) -> (r: bool)
        ensures
            r == self.consumed_view(),
    {
        self.consumed
    }
}

/// The children of a widget as unexpanded stack entries, in order.
pub open spec fn unexpanded(kids: Seq<WidgetId>) -> Seq<(WidgetId, bool)> {
    kids.map_values(|c: WidgetId| (c, false))
}

/// One step of an event dispatch.
#[derive(Debug, Clone, Copy, PartialEq, Eq, Structural)]
pub enum DispatchStep {
    /// Offer the event to this widget; stop the dispatch if it consumes it.
    Offer(WidgetId),
    /// The children of this widget were scheduled, or it is not mounted.
    Visit(WidgetId),
    /// Every widget has been offered the event.
    Done,
}

/// The widgets a dispatch starting at `x` offers an event to, in order:
/// the offers of each child's subtree, last child first, then `x`. `lv`
/// gives the depth of each widget (a child is one deeper than its parent)
/// and `m` bounds the depths taken into account.
pub open spec fn offer_order(n: Map<u64, NodeView>, lv: Map<u64, nat>, m: nat, x: WidgetId) -> Seq<WidgetId>
    decreases m - lv[x.raw] + 1, 0int,
{
    if n.contains_key(x.raw) && lv.contains_key(x.raw) && lv[x.raw] <= m {
        children_offers(n, lv, m, n[x.raw].children, lv[x.raw]) + seq![x]
    } else {
        Seq::empty()
    }
}

/// The offers of the subtrees of `kids`, children at depth `depth + 1`,
/// last child first.
pub open spec fn children_offers(
    n: Map<u64, NodeView>,
    lv: Map<u64, nat>,
    m: nat,
    kids: Seq<WidgetId>,
    depth: nat,
) -> Seq<WidgetId>
    decreases m - depth, kids.len(),
{
    if kids.len() == 0 || depth > m {
        Seq::empty()
    } else {
        let c = kids.last();
        let own = if lv.contains_key(c.raw) && lv[c.raw] == depth + 1 {
            offer_order(n, lv, m, c)
        } else {
            Seq::empty()
        };
        own + children_offers(n, lv, m, kids.drop_last(), depth)
    }
}

/// The offers still to come from one entry of a dispatch stack.
pub open spec fn entry_offers(n: Map<u64, NodeView>, lv: Map<u64, nat>, m: nat, e: (WidgetId, bool)) -> Seq<WidgetId> {
    if e.1 {
        seq![e.0]
    } else {
        offer_order(n, lv, m, e.0)
    }
}

/// The offers still to come from a dispatch stack, top (last) entry first.
pub open spec fn stack_offers(n: Map<u64, NodeView>, lv: Map<u64, nat>, m: nat, s: Seq<(WidgetId, bool)>) -> Seq<
    WidgetId,
>
    decreases s.len(),
{
    if s.len() == 0 {
        Seq::empty()
    } else {
        entry_offers(n, lv, m, s.last()) + stack_offers(n, lv, m, s.drop_last())
    }
}

/// What one dispatch step offers: the widget of an `Offer`, else nothing.
pub open spec fn step_offers(step: DispatchStep) -> Seq<WidgetId> {
    match step {
        DispatchStep::Offer(x) => seq![x],
        _ => Seq::empty(),
    }
}

/// Stacking the children of a widget at depth `d` adds their subtrees'
/// offers, last child first, before what the stack held.
pub proof fn lemma_stack_children(
    n: Map<u64, NodeView>,
    lv: Map<u64, nat>,
    m: nat,
    base: Seq<(WidgetId, bool)>,
    kids: Seq<WidgetId>,
    d: nat,
)
    requires
        d <= m,
        forall|i: int| 0 <= i < kids.len() && n.contains_key(#[trigger] kids[i].raw) ==> lv.contains_key(kids[i].raw)
            && lv[kids[i].raw] == d + 1,
    ensures
        stack_offers(n, lv, m, base + unexpanded(kids)) == children_offers(n, lv, m, kids, d) + stack_offers(
            n,
            lv,
            m,
            base,
        ),
    decreases kids.len(),
{
    if kids.len() == 0 {
        assert(base + unexpanded(kids) =~= base);
    } else {
        let k0 = kids.drop_last();
        let c = kids.last();
        assert(kids[kids.len() - 1] == c);
        lemma_stack_children(n, lv, m, base, k0, d);
        let s = base + unexpanded(kids);
        assert(s.last() == (c, false));
        assert(s.drop_last() =~= base + unexpanded(k0));
        if !(lv.contains_key(c.raw) && lv[c.raw] == d + 1) {
            assert(!n.contains_key(c.raw));
        }
        assert(stack_offers(n, lv, m, s) =~= children_offers(n, lv, m, kids, d) + stack_offers(n, lv, m, base));
    }
}

/// The structure of the mounted widgets.
pub struct WidgetTree<Th> {
    nodes: NodeMap,
    root: Option<WidgetId>,
    dirty_queue: Vec<WidgetId>,
    theme: Th,
    levels: Ghost<Map<u64, nat>>,
}

impl<Th> WidgetTree<Th> {
    /// The node records, by handle encoding.
    pub closed spec fn nodes(&self) -> Map<u64, NodeView> {
        node_views(self.nodes)
    }

    /// The root widget, if one is mounted.
    pub closed spec fn root_id(&self) -> Option<WidgetId> {
        self.root
    }

    /// Widgets queued for rebuild, each once.
    pub closed spec fn queue(&self) -> Seq<WidgetId> {
        self.dirty_queue@
    }

    /// Depth bookkeeping: a child's depth is its parent's plus one.
    pub closed spec fn level(&self, k: u64) -> nat {
        self.levels@[k]
    }

    /// The active theme.
    pub closed spec fn theme_view(&self) -> Th {
        self.theme
    }

    /// The generation of each slot of the node store.
    pub closed spec fn generations(&self) -> Map<u64, u64> {
        store_generations(self.nodes)
    }

    /// Structural invariant: every child link is mirrored by a parent link,
    /// every parent link by a child link, child lists hold no repeats, the
    /// root has no parent and is the only widget without one, depth grows by
    /// one from parent to child (so every widget lies under the root), only
    /// mounted widgets are queued, and the store's keys match its slots.
    pub closed spec fn wf(&self) -> bool {
        &&& self.links_wf()
        &&& store_agrees(store_contents(self.nodes), store_generations(self.nodes))
        &&& self.rooted()
        &&& self.queue_mounted()
    }

    /// Every widget without a parent is the root.
    #[verifier::opaque]
    pub closed spec fn rooted(&self) -> bool {
        let n = self.nodes();
        forall|k: u64| #[trigger] n.contains_key(k) && n[k].parent is None ==> self.root == Some(WidgetId { raw: k })
    }

    /// Every queued widget is mounted.
    #[verifier::opaque]
    pub closed spec fn queue_mounted(&self) -> bool {
        forall|i: int| 0 <= i < self.dirty_queue@.len() ==> self.nodes().contains_key(#[trigger] self.dirty_queue@[i].raw)
    }

    /// The link structure of the tree.
    pub closed spec fn links_wf(&self) -> bool {
        let n = self.nodes();
        let lv = self.levels@;
        &&& n.dom().finite()
        &&& forall|k: u64| #[trigger] n.contains_key(k) ==> canonical(k) && lv.contains_key(k)
        &&& self.root matches Some(r) ==> n.contains_key(r.raw) && n[r.raw].parent is None
        &&& forall|p: u64, i: int|
            #![trigger n[p].children[i]]
            n.contains_key(p) && 0 <= i < n[p].children.len() ==> {
                let c = n[p].children[i].raw;
                &&& n.contains_key(c)
                &&& n[c].parent == Some(WidgetId { raw: p })
            }
        &&& forall|p: u64| #[trigger] n.contains_key(p) ==> n[p].children.no_duplicates()
        &&& forall|c: u64|
            #[trigger] n.contains_key(c) && n[c].parent is Some ==> {
                let p = n[c].parent->0.raw;
                &&& n.contains_key(p)
                &&& n[p].children.contains(WidgetId { raw: c })
                &&& lv.contains_key(p)
                &&& lv.contains_key(c)
                &&& lv[c] == lv[p] + 1
            }
        &&& self.dirty_queue@.no_duplicates()
    }

    /// Drops `id` from the rebuild queue.
    fn queue_remove(&mut self, id: WidgetId)
        requires
            old(self).dirty_queue@.no_duplicates(),
        ensures
            final(self).dirty_queue@.no_duplicates(),
            forall|w: WidgetId|
                final(self).dirty_queue@.contains(w) <==> (old(self).dirty_queue@.contains(w) && w != id),
            final(self).nodes == old(self).nodes,
            final(self).root == old(self).root,
            final(self).theme == old(self).theme,
            final(self).levels == old(self).levels,
    {
        match index_of(&self.dirty_queue, id) {
            Some(i) => {
                proof {
                    lemma_remove_no_dup(self.dirty_queue@, i as int);
                }
                self.dirty_queue.remove(i);
            },
            None => {},
        }
    }

    /// Removes the widget `id` with all its descendants, detaches it from
    /// its parent's child list, drops the removed widgets from the rebuild
    /// queue, and clears the root if it was removed. Returns the removed
    /// handles, each once.
    pub fn remove_subtree(&mut self, id: WidgetId) -> (removed: Vec<WidgetId>)
        requires
            old(self).wf(),
        ensures
            final(self).wf(),
            removed@.no_duplicates(),
            !old(self).nodes().contains_key(id.raw) ==> removed@.len() == 0 && final(self).nodes()
                == old(self).nodes(),
            old(self).nodes().contains_key(id.raw) ==> is_subtree_union(
                old(self).nodes(),
                set![id.raw],
                raw_set(removed@),
            ),
            final(self).nodes().dom() == old(self).nodes().dom().difference(
                raw_set(removed@),
            ),
            forall|k: u64|
                #[trigger] final(self).nodes().contains_key(k) && (old(self).nodes()[id.raw].parent
                    != Some(WidgetId { raw: k }) || !old(self).nodes().contains_key(id.raw))
                    ==> final(self).nodes()[k] == old(self).nodes()[k],
            old(self).nodes().contains_key(id.raw) ==> (old(self).nodes()[id.raw].parent matches Some(
                p,
            ) ==> {
                let pv = old(self).nodes()[p.raw];
                exists|i: int|
                    0 <= i < pv.children.len() && pv.children[i] == id && final(self).nodes()[p.raw]
                        == NodeView { children: pv.children.remove(i), ..pv }
            }),
            forall|w: WidgetId|
                #[trigger] final(self).queue().contains(w) <==> (old(self).queue().contains(w) && w
                    != id && !removed@.contains(w)),
            final(self).root_id() == (if old(self).root_id() == Some(id) {
                None
            } else {
                old(self).root_id()
            }),
            final(self).theme_view() == old(self).theme_view(),
            forall|x: u64|
                #[trigger] raw_set(removed@).contains(x) ==> old(self).level(x) >= old(self).level(
                    id.raw,
                ),
            forall|k: u64|
                #[trigger] final(self).nodes().contains_key(k) ==> final(self).level(k) == old(
                    self,
                ).level(k),
            freed_only(old(self).generations(), final(self).generations()),
    {
        let ghost n0 = self.nodes();
        let ghost q0 = self.dirty_queue@;
        let ghost g0 = self.generations();
        let mut removed: Vec<WidgetId> = Vec::new();
        self.queue_remove(id);
        proof {
            self.lemma_growth_keeps(old(self));
        }
        assert(self.wf());
        assert(g0.dom() =~= g0.dom());
        if !is_canonical(id.raw) {
            assert(raw_set(removed@) =~= Set::<u64>::empty());
            return removed;
        }
        let parent = match store_get(&self.nodes, id) {
            None => {
                assert(raw_set(removed@) =~= Set::<u64>::empty());
                return removed;
            },
            Some(e) => {
                proof {
                    assert(self.nodes()[id.raw] == e@);
                    assert(self.nodes().contains_key(id.raw));
                    assert(self.levels@.contains_key(id.raw));
                }
                e.parent
            },
        };
        // Detach from the parent's child list.
        match parent {
            Some(p) => {
                proof {
                    assert(self.nodes().contains_key(id.raw));
                    assert(self.nodes()[id.raw].parent == Some(p));
                    assert(self.nodes().contains_key(p.raw));
                    assert(canonical(p.raw));
                }
                let pe = store_get(&self.nodes, p);
                let mut pentry = copy_entry(pe.unwrap());
                match index_of(&pentry.children, id) {
                    Some(i) => {
                        proof {
                            lemma_remove_no_dup(pentry.children@, i as int);
                        }
                        pentry.children.remove(i);
                    },
                    None => {},
                }
                let ghost m_before = self.nodes;
                store_replace(&mut self.nodes, p, pentry);
                proof {
                    lemma_views_insert(m_before, self.nodes, p.raw, pentry);
                }
            },
            None => {},
        }
        if self.root == Some(id) {
            self.root = None;
        }
        let ghost n1 = self.nodes();
        let ghost lv = self.levels@;
        let ghost q1 = self.dirty_queue@;
        let mut stack: Vec<WidgetId> = Vec::new();
        stack.push(id);
        assert(stack@[0] == id);
        assert(lv.contains_key(id.raw));
        let ghost mut rset: Set<u64> = Set::empty();
        while stack.len() > 0
            invariant
                // Facts on the detached tree `n1`.
                n1.dom().finite(),
                n1.contains_key(id.raw),
                forall|k: u64| #[trigger] n1.contains_key(k) ==> canonical(k),
                forall|x: u64, i: int|
                    #![trigger n1[x].children[i]]
                    n1.contains_key(x) && 0 <= i < n1[x].children.len() ==> n1.contains_key(
                        n1[x].children[i].raw,
                    ) && n1[n1[x].children[i].raw].parent == Some(WidgetId { raw: x }),
                forall|x: u64| #[trigger] n1.contains_key(x) ==> n1[x].children.no_duplicates(),
                n1[id.raw].parent matches Some(p) ==> !n1[p.raw].children.contains(id),
                forall|c: u64|
                    #[trigger] n1.contains_key(c) && n1[c].parent is Some ==> {
                        let p = n1[c].parent->0.raw;
                        &&& n1.contains_key(p)
                        &&& lv.contains_key(p)
                        &&& lv.contains_key(c)
                        &&& lv[c] == lv[p] + 1
                    },
                lv.contains_key(id.raw),
                // Progress.
                self.nodes() == n1.remove_keys(rset),
                self.levels@ == lv,
                rset.subset_of(n1.dom()),
                rset.finite(),
                stack@.no_duplicates(),
                forall|j: int|
                    0 <= j < stack@.len() ==> #[trigger] self.nodes().contains_key(stack@[j].raw),
                rset.contains(id.raw) || stack@.contains(id),
                forall|x: u64, i: int|
                    #![trigger rset.contains(x), n1[x].children[i]]
                    rset.contains(x) && 0 <= i < n1[x].children.len() ==> rset.contains(
                        n1[x].children[i].raw,
                    ) || stack@.contains(n1[x].children[i]),
                forall|x: u64|
                    #[trigger] rset.contains(x) ==> x == id.raw || (n1[x].parent is Some
                        && rset.contains(n1[x].parent->0.raw)),
                forall|j: int|
                    0 <= j < stack@.len() ==> (#[trigger] stack@[j]).raw == id.raw || (
                    n1[stack@[j].raw].parent is Some && rset.contains(
                        n1[stack@[j].raw].parent->0.raw,
                    )),
                forall|x: u64| #[trigger] rset.contains(x) ==> lv.contains_key(x) && lv[x] >= lv[id.raw],
                forall|j: int|
                    0 <= j < stack@.len() ==> lv.contains_key((#[trigger] stack@[j]).raw) && lv[stack@[j].raw]
                        >= lv[id.raw],
                removed@.no_duplicates(),
                raw_set(removed@) == rset,
                self.dirty_queue@.no_duplicates(),
                forall|w: WidgetId|
                    #[trigger] self.dirty_queue@.contains(w) <==> (q1.contains(w) && !rset.contains(
                        w.raw,
                    )),
                self.root == (if old(self).root == Some(id) { None } else { old(self).root }),
                self.theme == old(self).theme,
                store_agrees(store_contents(self.nodes), store_generations(self.nodes)),
                freed_only(g0, store_generations(self.nodes)),
            decreases self.nodes().dom().len(),
        {
            let ghost s_old = stack@;
            let x = stack.pop().unwrap();
            let ghost s0 = stack@;
            let ghost mb = self.nodes;
            let ghost rset_old = rset;
            assert(s_old == s0.push(x));
            assert(self.nodes().contains_key(x.raw)) by {
                assert(s_old[s_old.len() - 1] == x);
            }
            assert(node_views(mb)[x.raw] == n1[x.raw]);
            let ghost dom_before = self.nodes().dom();
            assert(dom_before.finite()) by {
                assert(dom_before =~= n1.dom().difference(rset));
            }
            let e = store_remove(&mut self.nodes, x).unwrap();
            proof {
                lemma_freed_step(store_contents(mb), g0, store_generations(mb), store_generations(self.nodes), x.raw);
                assert(self.nodes().dom() =~= dom_before.remove(x.raw)) by {
                    lemma_views_remove(mb, self.nodes, x.raw);
                }
                lemma_views_remove(mb, self.nodes, x.raw);
                assert(store_contents(mb)[x.raw] == e);
                assert(e@ == n1[x.raw]);
                rset = rset.insert(x.raw);
                assert(self.nodes() =~= n1.remove_keys(rset));
            }
            let ghost removed_old = removed@;
            removed.push(x);
            self.queue_remove(x);
            let mut kids = e.children;
            let ghost kv = kids@;
            stack.append(&mut kids);
            proof {
                    assert(kv == n1[x.raw].children);
                assert(!rset_old.contains(x.raw));
                // Children of `x` are neither removed nor pending.
                assert forall|i: int| 0 <= i < kv.len() implies !rset.contains(#[trigger] kv[i].raw)
                    && !s0.contains(kv[i]) && self.nodes().contains_key(kv[i].raw) by {
                    let c = kv[i];
                    assert(n1.contains_key(c.raw) && n1[c.raw].parent == Some(x));
                    assert(lv[c.raw] == lv[x.raw] + 1);
                    if rset_old.contains(c.raw) {
                        assert(c.raw == id.raw);
                        assert(c == id);
                        assert(n1[x.raw].children.contains(id));
                    }
                    if s0.contains(c) {
                        let j = choose|j: int| 0 <= j < s0.len() && s0[j] == c;
                        assert(s_old[j] == c);
                        assert(c.raw == id.raw);
                        assert(c == id);
                        assert(n1[x.raw].children.contains(id));
                    }
                }
                assert(stack@ == s0 + kv);
                assert forall|j: int| 0 <= j < s0.len() implies (#[trigger] s0[j]) != x by {
                    assert(s_old[j] == s0[j]);
                    assert(s_old[s_old.len() - 1] == x);
                }
                assert(stack@.no_duplicates()) by {
                    assert forall|a: int, b: int|
                        0 <= a < stack@.len() && 0 <= b < stack@.len() && a != b implies stack@[a]
                        != stack@[b] by {
                        if a < s0.len() && b < s0.len() {
                            assert(s_old[a] == s0[a] && s_old[b] == s0[b]);
                        } else if a >= s0.len() && b >= s0.len() {
                            assert(kv[a - s0.len()] == stack@[a]);
                        } else if a < s0.len() {
                            assert(stack@[b] == kv[b - s0.len()]);
                            assert(s0.contains(s0[a]));
                        } else {
                            assert(stack@[a] == kv[a - s0.len()]);
                            assert(s0.contains(s0[b]));
                        }
                    }
                }
                assert forall|j: int| 0 <= j < stack@.len() implies #[trigger] self.nodes().contains_key(
                    stack@[j].raw,
                ) && lv.contains_key(stack@[j].raw) && lv[stack@[j].raw] >= lv[id.raw] && (
                stack@[j].raw == id.raw || (n1[stack@[j].raw].parent is Some && rset.contains(
                    n1[stack@[j].raw].parent->0.raw,
                ))) by {
                    if j < s0.len() {
                        assert(s_old[j] == stack@[j]);
                        assert(stack@[j] != x);
                    } else {
                        let c = kv[j - s0.len()];
                        assert(stack@[j] == c);
                        assert(n1[c.raw].parent == Some(x));
                    }
                }
                assert(rset.contains(id.raw) || stack@.contains(id)) by {
                    if !rset.contains(id.raw) {
                        let j = choose|j: int| 0 <= j < s_old.len() && s_old[j] == id;
                        assert(j < s0.len());
                        assert(stack@[j] == id);
                    }
                }
                assert forall|y: u64, i: int|
                    rset.contains(y) && 0 <= i < n1[y].children.len() implies rset.contains(
                    #[trigger] n1[y].children[i].raw,
                ) || stack@.contains(n1[y].children[i]) by {
                    let c = n1[y].children[i];
                    if y == x.raw {
                        assert(stack@[s0.len() + i] == c);
                    } else if !rset_old.contains(c.raw) {
                        assert(s_old.contains(c));
                        let j = choose|j: int| 0 <= j < s_old.len() && s_old[j] == c;
                        if j < s0.len() {
                            assert(stack@[j] == c);
                        } else {
                            assert(c == x);
                        }
                    }
                }
                assert(removed@ == removed_old.push(x));
                assert forall|v: u64| raw_set(removed@).contains(v) <==> rset.contains(v) by {
                    if removed@.contains(WidgetId { raw: v }) && v != x.raw {
                        let j = choose|j: int| 0 <= j < removed@.len() && removed@[j] == WidgetId { raw: v };
                        assert(removed_old[j] == WidgetId { raw: v });
                        assert(raw_set(removed_old).contains(v));
                    }
                    if rset_old.contains(v) {
                        assert(raw_set(removed_old).contains(v));
                        let j = choose|j: int| 0 <= j < removed_old.len() && removed_old[j] == WidgetId { raw: v };
                        assert(removed@[j] == WidgetId { raw: v });
                    }
                    if v == x.raw {
                        assert(removed@[removed@.len() - 1] == x);
                    }
                }
                assert(raw_set(removed@) =~= rset);
                assert(!removed_old.contains(x)) by {
                    if removed_old.contains(x) {
                        assert(raw_set(removed_old).contains(x.raw));
                    }
                }
                assert forall|w: WidgetId|
                    #[trigger] self.dirty_queue@.contains(w) <==> (q1.contains(w) && !rset.contains(
                        w.raw,
                    )) by {
                    if w.raw == x.raw {
                        assert(w == x);
                    }
                }
            }
        }
        proof {
            assert(rset.contains(id.raw));
            // `n1` agrees with the old tree everywhere but at the detached parent.
            assert forall|y: u64| #[trigger] rset.contains(y) implies n0[y] == n1[y] && (n0[id.raw].parent
                matches Some(p) ==> y != p.raw) by {
                if let Some(p) = n0[id.raw].parent {
                    assert(lv[id.raw] == lv[p.raw] + 1);
                }
            }
            assert(is_subtree_union(n0, set![id.raw], rset)) by {
                assert forall|y: u64, i: int|
                    rset.contains(y) && 0 <= i < n0[y].children.len() implies rset.contains(
                    #[trigger] n0[y].children[i].raw,
                ) by {
                    assert(n0[y] == n1[y]);
                }
                assert forall|y: u64|
                    #![trigger rset.contains(y)]
                    rset.contains(y) && !set![id.raw].contains(y) implies n0[y].parent is Some
                    && rset.contains(n0[y].parent->0.raw) by {
                    assert(n0[y] == n1[y]);
                }
            }
            assert forall|w: WidgetId| removed@.contains(w) <==> rset.contains(w.raw) by {
                assert(w == WidgetId { raw: w.raw });
            }
            assert(self.nodes().dom() =~= n0.dom().difference(rset));
            self.lemma_removal_keeps(old(self), id, removed@);
        }
        removed
    }

    /// Growing the tree without new parentless widgets, under the same root,
    /// and queueing only mounted widgets, keeps the queue and root invariants.
    proof fn lemma_growth_keeps(&self, before: &Self)
        requires
            before.rooted(),
            before.queue_mounted(),
            before.nodes().dom().subset_of(self.nodes().dom()),
            forall|k: u64|
                #[trigger] self.nodes().contains_key(k) && self.nodes()[k].parent is None ==> before.nodes().contains_key(k)
                    && before.nodes()[k].parent is None,
            self.root == before.root,
            forall|w: WidgetId|
                #[trigger] self.queue().contains(w) ==> before.queue().contains(w) || self.nodes().contains_key(w.raw),
        ensures
            self.rooted(),
            self.queue_mounted(),
    {
        reveal(WidgetTree::rooted);
        reveal(WidgetTree::queue_mounted);
        assert forall|i: int| 0 <= i < self.dirty_queue@.len() implies self.nodes().contains_key(
            #[trigger] self.dirty_queue@[i].raw,
        ) by {
            assert(self.queue().contains(self.dirty_queue@[i]));
            if before.queue().contains(self.dirty_queue@[i]) {
                let j = choose|j: int| 0 <= j < before.dirty_queue@.len() && before.dirty_queue@[j] == self.dirty_queue@[i];
                assert(before.nodes().contains_key(before.dirty_queue@[j].raw));
            }
        }
    }

    /// Every mounted widget lies in the root's subtree.
    proof fn lemma_under_root(&self, s: Set<u64>, k: u64)
        requires
            self.wf(),
            self.root is Some,
            is_subtree_union(self.nodes(), set![self.root->0.raw], s),
            self.nodes().contains_key(k),
        ensures
            s.contains(k),
        decreases self.level(k),
    {
        reveal(WidgetTree::rooted);
        let n = self.nodes();
        if n[k].parent is None {
            assert(self.root == Some(WidgetId { raw: k }));
        } else {
            let p = n[k].parent->0.raw;
            assert(self.levels@[k] == self.levels@[p] + 1);
            self.lemma_under_root(s, p);
            let i = choose|i: int| 0 <= i < n[p].children.len() && n[p].children[i] == WidgetId { raw: k };
            assert(n[p].children[i].raw == k);
        }
    }

    /// Without a root no widget is mounted.
    proof fn lemma_no_root_empty(&self, k: u64)
        requires
            self.wf(),
            self.root is None,
        ensures
            !self.nodes().contains_key(k),
        decreases self.level(k),
    {
        reveal(WidgetTree::rooted);
        let n = self.nodes();
        if n.contains_key(k) && n[k].parent is Some {
            let p = n[k].parent->0.raw;
            assert(self.levels@[k] == self.levels@[p] + 1);
            self.lemma_no_root_empty(p);
        }
    }

    /// Removing a subtree keeps the queue and root invariants.
    proof fn lemma_removal_keeps(&self, before: &Self, id: WidgetId, removed: Seq<WidgetId>)
        requires
            before.rooted(),
            before.queue_mounted(),
            before.nodes().contains_key(id.raw),
            raw_set(removed).contains(id.raw),
            self.nodes().dom() == before.nodes().dom().difference(raw_set(removed)),
            forall|k: u64| #[trigger] self.nodes().contains_key(k) ==> self.nodes()[k].parent == before.nodes()[k].parent,
            forall|w: WidgetId|
                #[trigger] self.queue().contains(w) <==> (before.queue().contains(w) && w != id
                    && !removed.contains(w)),
            self.root == (if before.root == Some(id) { None } else { before.root }),
        ensures
            self.rooted(),
            self.queue_mounted(),
    {
        reveal(WidgetTree::rooted);
        reveal(WidgetTree::queue_mounted);
        assert forall|i: int| 0 <= i < self.dirty_queue@.len() implies self.nodes().contains_key(
            #[trigger] self.dirty_queue@[i].raw,
        ) by {
            let w = self.dirty_queue@[i];
            assert(self.queue().contains(w));
            let j = choose|j: int| 0 <= j < before.dirty_queue@.len() && before.dirty_queue@[j] == w;
            assert(before.nodes().contains_key(before.dirty_queue@[j].raw));
            assert(!raw_set(removed).contains(w.raw)) by {
                assert(w == WidgetId { raw: w.raw });
            }
        }
    }

    /// Mounts a new widget as the last child of `parent`; it starts dirty,
    /// so it is built on the next rebuild pass.
    pub fn mount(&mut self, spec: NodeSpec, parent: WidgetId) -> (id: WidgetId)
        requires
            old(self).wf(),
            old(self).nodes().contains_key(parent.raw),
            old(self).nodes().dom().len() < u32::MAX - 1,
        ensures
            final(self).wf(),
            !old(self).nodes().contains_key(id.raw),
            generation_of(id.raw) == prior_generation(old(self).generations(), slot_of(id.raw)) + 1,
            final(self).generations() == old(self).generations().insert(slot_of(id.raw), generation_of(id.raw)),
            final(self).nodes() == old(self).nodes().insert(
                id.raw,
                NodeView {
                    children: Seq::empty(),
                    parent: Some(parent),
                    key: key_view(spec.key),
                    type_tag: spec.type_tag,
                    dirty: true,
                },
            ).insert(
                parent.raw,
                NodeView {
                    children: old(self).nodes()[parent.raw].children.push(id),
                    ..old(self).nodes()[parent.raw]
                },
            ),
            final(self).queue() == old(self).queue(),
            final(self).root_id() == old(self).root_id(),
            final(self).theme_view() == old(self).theme_view(),
            final(self).level(id.raw) == old(self).level(parent.raw) + 1,
            forall|k: u64|
                #[trigger] old(self).nodes().contains_key(k) ==> final(self).level(k) == old(
                    self,
                ).level(k),
    {
        let ghost n0 = self.nodes();
        let entry = NodeEntry {
            children: Vec::new(),
            parent: Some(parent),
            key: spec.key,
            type_tag: spec.type_tag,
            dirty: true,
        };
        let ghost ev = entry@;
        let ghost m0 = self.nodes;
        proof {
            assert(store_contents(m0).dom() =~= n0.dom());
        }
        let id = store_insert(&mut self.nodes, entry);
        proof {
            lemma_views_insert(m0, self.nodes, id.raw, entry);
            assert(ev.children =~= Seq::<WidgetId>::empty());
        }
        assert(canonical(parent.raw));
        let pe = store_get(&self.nodes, parent);
        let mut pentry = copy_entry(pe.unwrap());
        pentry.children.push(id);
        let ghost m1 = self.nodes;
        store_replace(&mut self.nodes, parent, pentry);
        proof {
            lemma_views_insert(m1, self.nodes, parent.raw, pentry);
            let lv0 = self.levels@;
            self.levels = Ghost(lv0.insert(id.raw, lv0[parent.raw] + 1));
            let n = self.nodes();
            assert(n =~= n0.insert(id.raw, ev).insert(parent.raw, NodeView { children: n0[parent.raw].children.push(id), ..n0[parent.raw] }));
            assert(!n0[parent.raw].children.contains(id));
            assert forall|p: u64, i: int|
                #![trigger n[p].children[i]]
                n.contains_key(p) && 0 <= i < n[p].children.len() implies n.contains_key(
                n[p].children[i].raw,
            ) && n[n[p].children[i].raw].parent == Some(WidgetId { raw: p }) by {
                if p == parent.raw {
                    if i < n0[parent.raw].children.len() {
                        assert(n[p].children[i] == n0[p].children[i]);
                    }
                } else {
                    assert(n[p] == n0[p]);
                }
            }
            assert forall|p: u64| #[trigger] n.contains_key(p) implies n[p].children.no_duplicates() by {
                if p == parent.raw {
                    assert(n0[p].children.no_duplicates());
                }
            }
            assert forall|c: u64| #[trigger] n.contains_key(c) && n[c].parent is Some implies {
                let p = n[c].parent->0.raw;
                &&& n.contains_key(p)
                &&& n[p].children.contains(WidgetId { raw: c })
                &&& self.levels@.contains_key(p)
                &&& self.levels@.contains_key(c)
                &&& self.levels@[c] == self.levels@[p] + 1
            } by {
                if c == id.raw {
                    assert(n[parent.raw].children[n0[parent.raw].children.len() as int] == id);
                } else {
                    assert(n[c].parent == n0[c].parent);
                    let p = n[c].parent->0.raw;
                    assert(n0[p].children.contains(WidgetId { raw: c }));
                    if p == parent.raw {
                        let j = choose|j: int| 0 <= j < n0[p].children.len() && n0[p].children[j] == WidgetId { raw: c };
                        assert(n[p].children[j] == WidgetId { raw: c });
                    }
                }
            }
            self.lemma_growth_keeps(old(self));
        }
        id
    }

    /// Replaces the root: the previous root's whole subtree is removed, and
    /// the new root is mounted dirty with no parent. Returns the new root's
    /// handle and the removed handles.
    pub fn set_root(&mut self, spec: NodeSpec) -> (r: (WidgetId, Vec<WidgetId>))
        requires
            old(self).wf(),
        ensures
            final(self).wf(),
            final(self).root_id() == Some(r.0),
            r.1@.no_duplicates(),
            old(self).root_id() is None ==> r.1@.len() == 0,
            old(self).root_id() matches Some(o) ==> is_subtree_union(
                old(self).nodes(),
                set![o.raw],
                raw_set(r.1@),
            ),
            !old(self).nodes().contains_key(r.0.raw),
            final(self).nodes().dom() == set![r.0.raw],
            final(self).nodes() == old(self).nodes().remove_keys(raw_set(r.1@)).insert(
                r.0.raw,
                NodeView {
                    children: Seq::empty(),
                    parent: None,
                    key: key_view(spec.key),
                    type_tag: spec.type_tag,
                    dirty: true,
                },
            ),
            forall|w: WidgetId|
                #[trigger] final(self).queue().contains(w) <==> (old(self).queue().contains(w)
                    && !r.1@.contains(w)),
            final(self).theme_view() == old(self).theme_view(),
    {
        let ghost n0 = self.nodes();
        let ghost g0 = self.generations();
        proof {
            lemma_agrees(store_contents(self.nodes), g0);
        }
        let removed = match self.root {
            Some(old_root) => {
                let removed = self.remove_subtree(old_root);
                proof {
                    assert forall|k: u64| n0.contains_key(k) implies raw_set(removed@).contains(k) by {
                        old(self).lemma_under_root(raw_set(removed@), k);
                    }
                    assert(self.nodes() =~= n0.remove_keys(raw_set(removed@)));
                    assert forall|w: WidgetId| #[trigger] self.queue().contains(w) <==> (old(self).queue().contains(w)
                        && !removed@.contains(w)) by {
                        if w == old_root {
                            assert(raw_set(removed@).contains(old_root.raw));
                        }
                    }
                }
                removed
            },
            None => {
                let removed: Vec<WidgetId> = Vec::new();
                assert(raw_set(removed@) =~= Set::<u64>::empty());
                assert(forall|w: WidgetId| !removed@.contains(w));
                assert(self.nodes() =~= n0.remove_keys(raw_set(removed@)));
                assert(g0.dom() =~= g0.dom());
                assert forall|k: u64| !n0.contains_key(k) by {
                    self.lemma_no_root_empty(k);
                }
                removed
            },
        };
        let ghost n1 = self.nodes();
        let ghost q1 = self.dirty_queue@;
        assert forall|w: WidgetId| #[trigger] q1.contains(w) <==> (old(self).queue().contains(w)
            && !removed@.contains(w)) by {
            assert(self.queue().contains(w) == q1.contains(w));
        }
        let entry = NodeEntry {
            children: Vec::new(),
            parent: None,
            key: spec.key,
            type_tag: spec.type_tag,
            dirty: true,
        };
        let ghost ev = entry@;
        let ghost m0 = self.nodes;
        let ghost g1 = self.generations();
        proof {
            assert(n1.dom() =~= n0.dom().difference(raw_set(removed@)));
            assert(n0.dom().subset_of(raw_set(removed@)));
            assert(n1.dom() =~= Set::<u64>::empty());
            assert(store_contents(m0).dom() =~= n1.dom());
            lemma_agrees(store_contents(m0), g1);
            lemma_freed_advance(g0, g1);
        }
        let id = store_insert(&mut self.nodes, entry);
        proof {
            assert forall|k: u64| n0.contains_key(k) implies id.raw != k by {
                lemma_fresh_key(g0, g1, 1, k, id.raw);
            }
            lemma_views_insert(m0, self.nodes, id.raw, entry);
            assert(ev.children =~= Seq::<WidgetId>::empty());
            let lv0 = self.levels@;
            self.levels = Ghost(lv0.insert(id.raw, 0));
            assert(self.nodes() == n1.insert(id.raw, ev));
            assert(n1.dom() =~= n0.dom().difference(raw_set(removed@)));
        }
        self.root = Some(id);
        proof {
            let n = self.nodes();
            assert forall|p: u64, i: int|
                #![trigger n[p].children[i]]
                n.contains_key(p) && 0 <= i < n[p].children.len() implies n.contains_key(
                n[p].children[i].raw,
            ) && n[n[p].children[i].raw].parent == Some(WidgetId { raw: p }) by {
                assert(p != id.raw);
                assert(n[p] == n1[p]);
            }
            assert forall|c: u64| #[trigger] n.contains_key(c) && n[c].parent is Some implies {
                let p = n[c].parent->0.raw;
                &&& n.contains_key(p)
                &&& n[p].children.contains(WidgetId { raw: c })
                &&& self.levels@.contains_key(p)
                &&& self.levels@.contains_key(c)
                &&& self.levels@[c] == self.levels@[p] + 1
            } by {
                assert(c != id.raw);
                let p = n[c].parent->0.raw;
                assert(n1.contains_key(p));
                assert(p != id.raw);
            }
            assert(n.dom() =~= set![id.raw]);
            reveal(WidgetTree::rooted);
            reveal(WidgetTree::queue_mounted);
            assert forall|i: int| 0 <= i < self.dirty_queue@.len() implies n.contains_key(
                #[trigger] self.dirty_queue@[i].raw,
            ) by {
                let w = self.dirty_queue@[i];
                assert(q1.contains(w));
                let j = choose|j: int| 0 <= j < old(self).dirty_queue@.len() && old(self).dirty_queue@[j] == w;
                assert(n0.contains_key(old(self).dirty_queue@[j].raw));
                assert(raw_set(removed@).contains(w.raw));
                assert(w == WidgetId { raw: w.raw });
            }
        }
        (id, removed)
    }

    /// Queues `id` for rebuild (once).
    fn queue_insert(&mut self, id: WidgetId)
        requires
            old(self).dirty_queue@.no_duplicates(),
        ensures
            final(self).dirty_queue@.no_duplicates(),
            forall|w: WidgetId|
                final(self).dirty_queue@.contains(w) <==> (old(self).dirty_queue@.contains(w) || w == id),
            final(self).nodes == old(self).nodes,
            final(self).root == old(self).root,
            final(self).theme == old(self).theme,
            final(self).levels == old(self).levels,
    {
        match index_of(&self.dirty_queue, id) {
            Some(_) => {},
            None => {
                self.dirty_queue.push(id);
                proof {
                    assert forall|w: WidgetId|
                        self.dirty_queue@.contains(w) <==> (old(self).dirty_queue@.contains(w) || w == id) by {
                        if self.dirty_queue@.contains(w) && w != id {
                            let j = choose|j: int| 0 <= j < self.dirty_queue@.len() && self.dirty_queue@[j] == w;
                            assert(old(self).dirty_queue@[j] == w);
                        }
                        if old(self).dirty_queue@.contains(w) {
                            let j = choose|j: int| 0 <= j < old(self).dirty_queue@.len() && old(self).dirty_queue@[j] == w;
                            assert(self.dirty_queue@[j] == w);
                        }
                        if w == id {
                            assert(self.dirty_queue@[self.dirty_queue@.len() - 1] == id);
                        }
                    }
                }
            },
        }
    }

    /// Describes the current children of `parent` for matching.
    fn describe_children(&self, kids: &Vec<WidgetId>) -> (specs: Vec<NodeSpec>)
        requires
            self.wf(),
            forall|j: int| 0 <= j < kids@.len() ==> self.nodes().contains_key(#[trigger] kids@[j].raw),
        ensures
            specs@.len() == kids@.len(),
            spec_keys(specs@) == child_keys(self.nodes(), kids@),
            forall|j: int|
                0 <= j < kids@.len() ==> (#[trigger] specs@[j]).type_tag == self.nodes()[kids@[j].raw].type_tag,
    {
        let mut specs: Vec<NodeSpec> = Vec::new();
        let mut j: usize = 0;
        while j < kids.len()
            invariant
                self.wf(),
                forall|t: int| 0 <= t < kids@.len() ==> self.nodes().contains_key(#[trigger] kids@[t].raw),
                j <= kids@.len(),
                specs@.len() == j,
                forall|t: int| 0 <= t < j ==> key_view((#[trigger] specs@[t]).key) == self.nodes()[kids@[t].raw].key,
                forall|t: int| 0 <= t < j ==> (#[trigger] specs@[t]).type_tag == self.nodes()[kids@[t].raw].type_tag,
            decreases kids@.len() - j,
        {
            let w = kids[j];
            assert(self.nodes().contains_key(w.raw));
            let e = store_get(&self.nodes, w).unwrap();
            assert(self.nodes()[w.raw] == e@);
            specs.push(NodeSpec { key: copy_key(&e.key), type_tag: e.type_tag });
            j = j + 1;
        }
        assert(spec_keys(specs@) =~= child_keys(self.nodes(), kids@));
        specs
    }

    /// Reconciles the children of `parent` with the widgets its `build`
    /// returned. Each new child that is matched with an old child of the
    /// same type takes that widget over (its key is updated, it is marked
    /// dirty and queued for rebuild, its own children stay); every other new
    /// child is mounted fresh; every old child not taken over is removed with
    /// its subtree. The parent's child list becomes the new list in order.
    pub fn reconcile(&mut self, parent: WidgetId, new_nodes: Vec<NodeSpec>) -> (out: ReconcileOutcome)
        requires
            old(self).wf(),
            old(self).nodes().contains_key(parent.raw),
            old(self).nodes().dom().len() + new_nodes@.len() < u32::MAX - 1,
        ensures
            final(self).wf(),
            ({
                let n0 = old(self).nodes();
                let k0 = n0[parent.raw].children;
                let nn = new_nodes@;
                let gone = raw_set(out.removed@);
                let kept_ids = Set::new(
                    |r: u64| exists|i: int| 0 <= i < nn.len() && out.reused@[i] && out.children@[i].raw == r,
                );
                &&& out.children@.len() == nn.len()
                &&& out.reused@.len() == nn.len()
                &&& out.removed@.no_duplicates()
                &&& forall|i: int| 0 <= i < nn.len() ==> (#[trigger] out.reused@[i]) == reuses(n0, k0, nn, i)
                &&& forall|i: int|
                    0 <= i < nn.len() && #[trigger] out.reused@[i] ==> out.children@[i] == k0[matched(n0, k0, nn, i)]
                        && final(self).nodes()[out.children@[i].raw] == NodeView {
                            key: key_view(nn[i].key),
                            dirty: true,
                            ..n0[out.children@[i].raw]
                        }
                &&& forall|i: int|
                    0 <= i < nn.len() && !(#[trigger] out.reused@[i]) ==> !n0.contains_key(out.children@[i].raw) && final(self).nodes()[out.children@[i].raw] == NodeView {
                        children: Seq::empty(),
                        parent: Some(parent),
                        key: key_view(nn[i].key),
                        type_tag: nn[i].type_tag,
                        dirty: true,
                    }
                &&& final(self).nodes()[parent.raw] == NodeView { children: out.children@, ..n0[parent.raw] }
                &&& is_subtree_union(n0, dropped(n0, k0, nn), gone)
                &&& final(self).nodes().dom() == n0.dom().difference(gone).union(raw_set(out.children@))
                &&& forall|k: u64|
                    #[trigger] final(self).nodes().contains_key(k) && k != parent.raw && !raw_set(
                        out.children@,
                    ).contains(k) ==> final(self).nodes()[k] == n0[k]
                &&& forall|w: WidgetId|
                    #[trigger] final(self).queue().contains(w) <==> ((old(self).queue().contains(w)
                        && !out.removed@.contains(w)) || kept_ids.contains(w.raw))
            }),
            final(self).root_id() == old(self).root_id(),
            final(self).theme_view() == old(self).theme_view(),
            forall|w: RebuildWalk|
                w.pending_view() == Some(parent) && #[trigger] pass_covers(old(self).nodes(), w) ==> pass_covers(
                    final(self).nodes(),
                    w,
                ),
    {
        let ghost n0 = self.nodes();
        let ghost q0 = self.dirty_queue@;
        let ghost nn = new_nodes@;
        let ghost g0 = self.generations();
        let ghost c0 = store_contents(self.nodes);
        assert(c0.dom() =~= n0.dom());
        assert(canonical(parent.raw));
        let pe = store_get(&self.nodes, parent);
        let kids = copy_ids(&pe.unwrap().children);
        let ghost k0 = kids@;
        proof {
            assert(k0 == n0[parent.raw].children);
            assert forall|j: int| 0 <= j < k0.len() implies #[trigger] n0.contains_key(k0[j].raw)
                && n0[k0[j].raw].parent == Some(parent) && self.level(k0[j].raw) == self.level(parent.raw) + 1 by {
                assert(n0[parent.raw].children[j] == k0[j]);
            }
        }
        let old_specs = self.describe_children(&kids);
        let plan = plan_children(&old_specs, &new_nodes);
        let ghost ok = child_keys(n0, k0);
        // Which new children take over an old one, and which old ones stay.
        let mut reused: Vec<bool> = Vec::new();
        let mut keep: Vec<bool> = Vec::new();
        let mut j: usize = 0;
        while j < kids.len()
            invariant
                j <= kids@.len(),
                keep@.len() == j,
                forall|t: int| 0 <= t < j ==> !(#[trigger] keep@[t]),
            decreases kids@.len() - j,
        {
            keep.push(false);
            j = j + 1;
        }
        let mut i: usize = 0;
        while i < new_nodes.len()
            invariant
                nn == new_nodes@,
                k0 == kids@,
                ok == spec_keys(old_specs@),
                ok == child_keys(n0, k0),
                old_specs@.len() == k0.len(),
                forall|t: int| 0 <= t < k0.len() ==> (#[trigger] old_specs@[t]).type_tag == n0[k0[t].raw].type_tag,
                plan@.len() == nn.len(),
                forall|t: int| 0 <= t < plan@.len() ==> crate::phosphor::matching::plan_entry(
                    #[trigger] plan@[t],
                    candidate(spec_keys(old_specs@), spec_keys(new_nodes@), t),
                ),
                i <= nn.len(),
                reused@.len() == i,
                keep@.len() == k0.len(),
                forall|t: int| 0 <= t < i ==> (#[trigger] reused@[t]) == reuses(n0, k0, nn, t),
                forall|jj: int| 0 <= jj < k0.len() ==> (#[trigger] keep@[jj]) == exists|t: int|
                    0 <= t < i && #[trigger] reuses(n0, k0, nn, t) && matched(n0, k0, nn, t) == jj,
            decreases nn.len() - i,
        {
            proof {
                lemma_candidate_range(ok, spec_keys(nn), i as int);
            }
            let take = match plan[i] {
                Some(jj) => old_specs[jj].type_tag == new_nodes[i].type_tag,
                None => false,
            };
            if take {
                let jj = plan[i].unwrap();
                keep.set(jj, true);
            }
            reused.push(take);
            proof {
                assert(reused@[i as int] == reuses(n0, k0, nn, i as int));
                assert forall|jj: int| 0 <= jj < k0.len() implies (#[trigger] keep@[jj]) == exists|t: int|
                    0 <= t < i + 1 && #[trigger] reuses(n0, k0, nn, t) && matched(n0, k0, nn, t) == jj by {
                    if take && jj == matched(n0, k0, nn, i as int) {
                        assert(reuses(n0, k0, nn, i as int));
                    }
                    if exists|t: int| 0 <= t < i + 1 && #[trigger] reuses(n0, k0, nn, t) && matched(n0, k0, nn, t) == jj {
                        let t = choose|t: int| 0 <= t < i + 1 && #[trigger] reuses(n0, k0, nn, t) && matched(n0, k0, nn, t) == jj;
                        if t == i {
                            assert(keep@[jj]);
                        }
                    }
                }
            }
            i = i + 1;
        }
        assert(forall|jj: int| 0 <= jj < k0.len() ==> (#[trigger] keep@[jj]) == kept(n0, k0, nn, jj));
        // Remove the old children that nothing takes over.
        let ghost lv0 = |k: u64| old(self).level(k);
        let mut removed: Vec<WidgetId> = Vec::new();
        let mut j: usize = 0;
        while j < kids.len()
            invariant
                self.wf(),
                k0 == kids@,
                k0 == n0[parent.raw].children,
                k0.no_duplicates(),
                forall|t: int| 0 <= t < k0.len() ==> #[trigger] n0.contains_key(k0[t].raw)
                    && n0[k0[t].raw].parent == Some(parent) && lv0(k0[t].raw) == lv0(parent.raw) + 1,
                n0.contains_key(parent.raw),
                forall|k: u64| #[trigger] n0.contains_key(k) && n0[k].parent is Some ==> lv0(k) == lv0(n0[k].parent->0.raw) + 1 && n0.contains_key(n0[k].parent->0.raw),
                keep@.len() == k0.len(),
                j <= k0.len(),
                self.nodes().dom() == n0.dom().difference(raw_set(removed@)),
                forall|k: u64| #[trigger] self.nodes().contains_key(k) && k != parent.raw ==> self.nodes()[k] == n0[k],
                self.nodes().contains_key(parent.raw),
                self.nodes()[parent.raw] == (NodeView { children: self.nodes()[parent.raw].children, ..n0[parent.raw] }),
                forall|k: u64| #[trigger] self.nodes().contains_key(k) ==> self.level(k) == lv0(k),
                removed@.no_duplicates(),
                is_subtree_union(n0, Set::new(|r: u64| exists|t: int| 0 <= t < j && k0[t].raw == r && !keep@[t]), raw_set(removed@)),
                forall|x: u64| #[trigger] raw_set(removed@).contains(x) ==> lv0(x) >= lv0(parent.raw) + 1,
                forall|w: WidgetId| #[trigger] self.queue().contains(w) <==> (q0.contains(w) && !removed@.contains(w)),
                self.root == old(self).root,
                self.theme == old(self).theme,
                freed_only(g0, self.generations()),
            decreases k0.len() - j,
        {
            let ghost tops = Set::new(|r: u64| exists|t: int| 0 <= t < j && k0[t].raw == r && !keep@[t]);
            let ghost tops2 = Set::new(|r: u64| exists|t: int| 0 <= t < j + 1 && k0[t].raw == r && !keep@[t]);
            if !keep[j] {
                let t = kids[j];
                let ghost nb = self.nodes();
                let ghost rb = raw_set(removed@);
                let ghost removed_b = removed@;
                proof {
                    assert(n0.contains_key(t.raw));
                    if rb.contains(t.raw) {
                        if tops.contains(t.raw) {
                            let t2 = choose|t2: int| 0 <= t2 < j && k0[t2].raw == t.raw && !keep@[t2];
                            assert(k0[t2] == k0[j as int]);
                        } else {
                            assert(n0[t.raw].parent == Some(parent));
                            assert(rb.contains(parent.raw));
                        }
                    }
                    assert(self.nodes().contains_key(t.raw));
                }
                let ghost gb = self.generations();
                let mut r = self.remove_subtree(t);
                proof {
                    lemma_freed_trans(g0, gb, self.generations());
                }
                let ghost rr = raw_set(r@);
                let ghost rv = r@;
                removed.append(&mut r);
                proof {
                    assert(removed@ == removed_b + rv);
                    assert forall|v: u64| raw_set(removed@).contains(v) <==> (rb.contains(v) || rr.contains(v)) by {
                        let w = WidgetId { raw: v };
                        if removed@.contains(w) {
                            let q = choose|q: int| 0 <= q < removed@.len() && removed@[q] == w;
                            if q < removed_b.len() {
                                assert(removed_b[q] == w);
                            } else {
                                assert(rv[q - removed_b.len()] == w);
                            }
                        }
                        if removed_b.contains(w) {
                            let q = choose|q: int| 0 <= q < removed_b.len() && removed_b[q] == w;
                            assert(removed@[q] == w);
                        }
                        if rv.contains(w) {
                            let q = choose|q: int| 0 <= q < rv.len() && rv[q] == w;
                            assert(removed@[removed_b.len() + q] == w);
                        }
                    }
                    assert(raw_set(removed@) =~= rb.union(rr));
                    assert(rr.contains(t.raw));
                    assert forall|w: WidgetId| #[trigger] self.queue().contains(w) <==> (q0.contains(w) && !removed@.contains(w)) by {
                        assert(w == WidgetId { raw: w.raw });
                        assert(raw_set(removed@).contains(w.raw) == removed@.contains(w));
                        assert(raw_set(removed_b).contains(w.raw) == removed_b.contains(w));
                        assert(rr.contains(w.raw) == rv.contains(w));
                    }
                    // Everything removed now lies below `t`, hence below the parent.
                    assert forall|x: u64| #[trigger] rr.contains(x) implies nb.contains_key(x) && x != parent.raw
                        && nb[x] == n0[x] && lv0(x) >= lv0(parent.raw) + 1 by {
                        assert(nb.contains_key(x));
                    }
                    assert(self.nodes().dom() =~= n0.dom().difference(raw_set(removed@)));
                    assert(removed@.no_duplicates()) by {
                        assert forall|a: int, b: int| 0 <= a < removed@.len() && 0 <= b < removed@.len() && a != b
                            implies removed@[a] != removed@[b] by {
                            if a < removed_b.len() && b >= removed_b.len() {
                                assert(rr.contains(removed@[b].raw));
                                assert(rb.contains(removed@[a].raw));
                            } else if b < removed_b.len() && a >= removed_b.len() {
                                assert(rr.contains(removed@[a].raw));
                                assert(rb.contains(removed@[b].raw));
                            }
                        }
                    }
                    assert(is_subtree_union(n0, tops2, raw_set(removed@))) by {
                        assert(tops2 =~= tops.insert(t.raw));
                        assert forall|x: u64, i: int|
                            raw_set(removed@).contains(x) && 0 <= i < n0[x].children.len() implies raw_set(removed@).contains(
                            #[trigger] n0[x].children[i].raw) by {
                            if rr.contains(x) {
                                assert(nb[x] == n0[x]);
                            }
                        }
                        assert forall|x: u64| #![trigger raw_set(removed@).contains(x)]
                            raw_set(removed@).contains(x) && !tops2.contains(x) implies n0[x].parent is Some
                            && raw_set(removed@).contains(n0[x].parent->0.raw) by {
                            if rr.contains(x) {
                                assert(nb[x] == n0[x]);
                            }
                        }
                    }
                }
            } else {
                proof {
                    assert(tops2 =~= tops);
                }
            }
            j = j + 1;
        }
        let ghost nr = self.nodes();
        let ghost gone = raw_set(removed@);
        proof {
            lemma_agrees(c0, g0);
            lemma_freed_advance(g0, self.generations());
            lemma_len_subset(nr.dom(), n0.dom());
            assert forall|r: u64| (exists|t: int| 0 <= t < k0.len() && k0[t].raw == r && !keep@[t])
                <==> dropped(n0, k0, nn).contains(r) by {
                if exists|t: int| 0 <= t < k0.len() && k0[t].raw == r && !keep@[t] {
                    let t = choose|t: int| 0 <= t < k0.len() && k0[t].raw == r && !keep@[t];
                    assert(!kept(n0, k0, nn, t));
                }
                if dropped(n0, k0, nn).contains(r) {
                    let t = choose|t: int| 0 <= t < k0.len() && k0[t].raw == r && !kept(n0, k0, nn, t);
                    assert(!keep@[t]);
                }
            }
            assert(Set::new(|r: u64| exists|t: int| 0 <= t < k0.len() && k0[t].raw == r && !keep@[t])
                =~= dropped(n0, k0, nn));
            // Taken-over old children survive the removals.
            assert forall|jj: int| 0 <= jj < k0.len() && #[trigger] kept(n0, k0, nn, jj) implies nr.contains_key(k0[jj].raw) by {
                if gone.contains(k0[jj].raw) {
                    if dropped(n0, k0, nn).contains(k0[jj].raw) {
                        let t = choose|t: int| 0 <= t < k0.len() && k0[t].raw == k0[jj].raw && !kept(n0, k0, nn, t);
                        assert(k0[t] == k0[jj]);
                    } else {
                        assert(n0[k0[jj].raw].parent == Some(parent));
                    }
                }
            }
        }
        // Take over or mount each new child.
        let mut children: Vec<WidgetId> = Vec::new();
        let mut i: usize = 0;
        while i < new_nodes.len()
            invariant
                self.wf(),
                nn == new_nodes@,
                k0 == kids@,
                k0 == n0[parent.raw].children,
                k0.no_duplicates(),
                ok == spec_keys(old_specs@),
                ok == child_keys(n0, k0),
                plan@.len() == nn.len(),
                reused@.len() == nn.len(),
                forall|t: int| 0 <= t < plan@.len() ==> crate::phosphor::matching::plan_entry(
                    #[trigger] plan@[t],
                    candidate(spec_keys(old_specs@), spec_keys(new_nodes@), t),
                ),
                forall|t: int| 0 <= t < nn.len() ==> (#[trigger] reused@[t]) == reuses(n0, k0, nn, t),
                forall|t: int| 0 <= t < k0.len() ==> #[trigger] n0.contains_key(k0[t].raw)
                    && n0[k0[t].raw].parent == Some(parent) && lv0(k0[t].raw) == lv0(parent.raw) + 1,
                forall|jj: int| 0 <= jj < k0.len() && #[trigger] kept(n0, k0, nn, jj) ==> nr.contains_key(k0[jj].raw),
                forall|k: u64| #[trigger] nr.contains_key(k) && k != parent.raw ==> nr[k] == n0[k],
                nr.contains_key(parent.raw),
                nr[parent.raw] == (NodeView { children: nr[parent.raw].children, ..n0[parent.raw] }),
                i <= nn.len(),
                children@.len() == i,
                children@.no_duplicates(),
                self.nodes().dom() == nr.dom().union(raw_set(children@)),
                forall|t: int| 0 <= t < i && #[trigger] reused@[t] ==> children@[t] == k0[matched(n0, k0, nn, t)]
                    && self.nodes()[children@[t].raw] == (NodeView {
                        key: key_view(nn[t].key),
                        dirty: true,
                        ..n0[children@[t].raw]
                    }),
                forall|t: int| 0 <= t < i && !(#[trigger] reused@[t]) ==> !nr.contains_key(children@[t].raw)
                    && self.nodes()[children@[t].raw] == (NodeView {
                        children: Seq::empty(),
                        parent: Some(parent),
                        key: key_view(nn[t].key),
                        type_tag: nn[t].type_tag,
                        dirty: true,
                    }),
                forall|k: u64| #[trigger] self.nodes().contains_key(k) && k != parent.raw && !raw_set(children@).contains(k)
                    ==> self.nodes()[k] == nr[k],
                self.nodes()[parent.raw] == (NodeView { children: self.nodes()[parent.raw].children, ..n0[parent.raw] }),
                forall|w: WidgetId| #[trigger] self.queue().contains(w) <==> ((q0.contains(w) && !removed@.contains(w))
                    || exists|t: int| 0 <= t < i && reused@[t] && children@[t] == w),
                self.root == old(self).root,
                self.theme == old(self).theme,
                store_agrees(c0, g0),
                c0.dom() == n0.dom(),
                advanced_within(g0, self.generations(), 1 + i),
                self.nodes().dom().len() <= n0.dom().len() + i,
                n0.dom().len() + nn.len() < u32::MAX - 1,
                forall|t: int| 0 <= t < i && !(#[trigger] reused@[t]) ==> !n0.contains_key(children@[t].raw),
            decreases nn.len() - i,
        {
            proof {
                lemma_candidate_range(ok, spec_keys(nn), i as int);
            }
            let ghost cb = children@;
            let ghost nb = self.nodes();
            let ghost qb = self.dirty_queue@;
            assert(forall|w: WidgetId| #[trigger] qb.contains(w) <==> ((q0.contains(w) && !removed@.contains(w))
                    || exists|t: int| 0 <= t < i && reused@[t] && cb[t] == w)) by {
                assert(forall|w: WidgetId| #[trigger] self.queue().contains(w) == qb.contains(w));
            }
            if reused[i] {
                let jj = plan[i].unwrap();
                let id = kids[jj];
                proof {
                    assert(kept(n0, k0, nn, jj as int));
                    assert(nr.contains_key(id.raw));
                    // No earlier new child took it over: distinct new children take over distinct old ones.
                    assert forall|t: int| 0 <= t < i implies cb[t] != id by {
                        if reused@[t] {
                            lemma_candidate_range(ok, spec_keys(nn), t);
                            if matched(n0, k0, nn, t) == jj as int {
                                lemma_candidate_injective(ok, spec_keys(nn), t, i as int);
                            }
                            assert(k0[matched(n0, k0, nn, t)] != k0[jj as int]);
                        } else {
                            assert(!nr.contains_key(cb[t].raw));
                        }
                    }
                    assert(!raw_set(cb).contains(id.raw));
                    assert(id == k0[jj as int]);
                    assert(n0.contains_key(k0[jj as int].raw));
                    assert(lv0(id.raw) == lv0(parent.raw) + 1);
                    assert(id.raw != parent.raw);
                    assert(nb.contains_key(id.raw));
                    assert(nb[id.raw] == nr[id.raw]);
                    assert(nb[id.raw] == n0[id.raw]);
                    assert(canonical(id.raw));
                }
                let ghost tb = *self;
                let mut e = copy_entry(store_get(&self.nodes, id).unwrap());
                e.key = copy_key(&new_nodes[i].key);
                e.dirty = true;
                let ghost m0 = self.nodes;
                store_replace(&mut self.nodes, id, e);
                proof {
                    lemma_views_insert(m0, self.nodes, id.raw, e);
                }
                self.queue_insert(id);
                children.push(id);
                proof {
                    self.lemma_growth_keeps(&tb);
                    assert(self.nodes().dom() =~= nb.dom());
                    lemma_raw_set_push(cb, id);
                    assert(self.nodes().dom() =~= nr.dom().union(raw_set(children@)));
                    assert(jj as int == matched(n0, k0, nn, i as int));
                    assert forall|t: int| 0 <= t < i + 1 && #[trigger] reused@[t] implies children@[t] == k0[matched(n0, k0, nn, t)]
                        && self.nodes()[children@[t].raw] == (NodeView {
                            key: key_view(nn[t].key),
                            dirty: true,
                            ..n0[children@[t].raw]
                        }) by {
                        if t < i {
                            assert(children@[t] == cb[t]);
                            assert(cb[t] != id);
                        }
                    }
                    assert forall|w: WidgetId| #[trigger] self.queue().contains(w) <==> ((q0.contains(w) && !removed@.contains(w))
                        || exists|t: int| 0 <= t < i + 1 && reused@[t] && children@[t] == w) by {
                        assert(self.queue().contains(w) == (qb.contains(w) || w == id));
                        assert(qb.contains(w) <==> ((q0.contains(w) && !removed@.contains(w))
                            || exists|t: int| 0 <= t < i && reused@[t] && cb[t] == w));
                        if exists|t: int| 0 <= t < i + 1 && reused@[t] && children@[t] == w {
                            let t = choose|t: int| 0 <= t < i + 1 && reused@[t] && children@[t] == w;
                            if t < i {
                                assert(cb[t] == w);
                            }
                        }
                        if exists|t: int| 0 <= t < i && reused@[t] && cb[t] == w {
                            let t = choose|t: int| 0 <= t < i && reused@[t] && cb[t] == w;
                            assert(children@[t] == w);
                        }
                        if w == id {
                            assert(children@[i as int] == w);
                        }
                    }
                }
            } else {
                let spec = NodeSpec { key: copy_key(&new_nodes[i].key), type_tag: new_nodes[i].type_tag };
                let ghost gb = self.generations();
                let ghost cb0 = store_contents(self.nodes);
                proof {
                    lemma_agrees(cb0, gb);
                }
                let id = self.mount(spec, parent);
                children.push(id);
                proof {
                    lemma_insert_fresh(c0, g0, cb0, gb, self.generations(), 1 + i, id.raw);
                    assert(self.nodes().dom() =~= nb.dom().insert(id.raw));
                    assert forall|t: int| 0 <= t < i + 1 && !(#[trigger] reused@[t]) implies !n0.contains_key(children@[t].raw) by {
                        if t < i {
                            assert(children@[t] == cb[t]);
                        }
                    }
                    lemma_raw_set_push(cb, id);
                    assert(self.nodes().dom() =~= nr.dom().union(raw_set(children@)));
                    assert forall|t: int| 0 <= t < i + 1 && #[trigger] reused@[t] implies children@[t] == k0[matched(n0, k0, nn, t)]
                        && self.nodes()[children@[t].raw] == (NodeView {
                            key: key_view(nn[t].key),
                            dirty: true,
                            ..n0[children@[t].raw]
                        }) by {
                        assert(t < i);
                        assert(children@[t] == cb[t]);
                        lemma_candidate_range(ok, spec_keys(nn), t);
                        let mj = matched(n0, k0, nn, t);
                        assert(n0.contains_key(k0[mj].raw));
                        assert(lv0(k0[mj].raw) == lv0(parent.raw) + 1);
                        assert(cb[t].raw != parent.raw);
                        assert(nb.contains_key(cb[t].raw));
                    }
                    assert forall|w: WidgetId| #[trigger] self.queue().contains(w) <==> ((q0.contains(w) && !removed@.contains(w))
                        || exists|t: int| 0 <= t < i + 1 && reused@[t] && children@[t] == w) by {
                        if exists|t: int| 0 <= t < i + 1 && reused@[t] && children@[t] == w {
                            let t = choose|t: int| 0 <= t < i + 1 && reused@[t] && children@[t] == w;
                            assert(t < i);
                            assert(cb[t] == w);
                        }
                        if exists|t: int| 0 <= t < i && reused@[t] && cb[t] == w {
                            let t = choose|t: int| 0 <= t < i && reused@[t] && cb[t] == w;
                            assert(children@[t] == w);
                        }
                    }
                }
            }
            i = i + 1;
        }
        // The parent's child list becomes the new list.
        let ghost nf0 = self.nodes();
        let ghost qf = self.dirty_queue@;
        assert(forall|w: WidgetId| #[trigger] qf.contains(w) <==> ((q0.contains(w) && !removed@.contains(w))
            || exists|t: int| 0 <= t < nn.len() && reused@[t] && children@[t] == w)) by {
            assert(forall|w: WidgetId| #[trigger] self.queue().contains(w) == qf.contains(w));
        }
        assert(canonical(parent.raw));
        assert(self.nodes().contains_key(parent.raw));
        assert(store_contents(self.nodes).contains_key(parent.raw));
        let ghost tf = *self;
        let mut pentry = copy_entry(store_get(&self.nodes, parent).unwrap());
        pentry.children = copy_ids(&children);
        let ghost m0 = self.nodes;
        store_replace(&mut self.nodes, parent, pentry);
        proof {
            lemma_views_insert(m0, self.nodes, parent.raw, pentry);
            assert(self.nodes().dom() =~= nf0.dom());
            self.lemma_growth_keeps(&tf);
            lemma_views_insert(m0, self.nodes, parent.raw, pentry);
            let n = self.nodes();
            let cs = children@;
            assert(n[parent.raw] == (NodeView { children: cs, ..n0[parent.raw] }));
            assert(n.dom() =~= nf0.dom());
            assert forall|t: int| 0 <= t < cs.len() implies #[trigger] nf0.contains_key(cs[t].raw)
                && nf0[cs[t].raw].parent == Some(parent) && cs[t].raw != parent.raw by {
                assert(raw_set(cs).contains(cs[t].raw));
                if reused@[t] {
                    lemma_candidate_range(ok, spec_keys(nn), t);
                    let mj = matched(n0, k0, nn, t);
                    assert(n0.contains_key(k0[mj].raw));
                    assert(lv0(k0[mj].raw) == lv0(parent.raw) + 1);
                } else {
                    assert(!nr.contains_key(cs[t].raw));
                }
            }
            assert forall|p: u64, i: int|
                #![trigger n[p].children[i]]
                n.contains_key(p) && 0 <= i < n[p].children.len() implies n.contains_key(
                n[p].children[i].raw,
            ) && n[n[p].children[i].raw].parent == Some(WidgetId { raw: p }) by {
                if p == parent.raw {
                    assert(n[p].children[i] == cs[i]);
                } else {
                    assert(n[p] == nf0[p]);
                    let c = nf0[p].children[i].raw;
                    assert(nf0.contains_key(c));
                    if c == parent.raw {
                        assert(n[c].parent == nf0[c].parent);
                    }
                }
            }
            assert forall|p: u64| #[trigger] n.contains_key(p) implies n[p].children.no_duplicates() by {
                if p != parent.raw {
                    assert(n[p] == nf0[p]);
                }
            }
            assert forall|c: u64| #[trigger] n.contains_key(c) && n[c].parent is Some implies {
                let p = n[c].parent->0.raw;
                &&& n.contains_key(p)
                &&& n[p].children.contains(WidgetId { raw: c })
                &&& self.levels@.contains_key(p)
                &&& self.levels@.contains_key(c)
                &&& self.levels@[c] == self.levels@[p] + 1
            } by {
                assert(n[c].parent == nf0[c].parent);
                let p = n[c].parent->0.raw;
                assert(nf0.contains_key(p));
                if p == parent.raw {
                    if !raw_set(cs).contains(c) {
                        assert(c != parent.raw);
                        assert(nf0[c] == nr[c]);
                        assert(nr[c] == n0[c]);
                        assert(n0[parent.raw].children.contains(WidgetId { raw: c }));
                        let j = choose|j: int| 0 <= j < k0.len() && k0[j] == WidgetId { raw: c };
                        if !kept(n0, k0, nn, j) {
                            assert(dropped(n0, k0, nn).contains(c));
                            assert(gone.contains(c));
                        } else {
                            let i = choose|i: int| 0 <= i < nn.len() && #[trigger] reuses(n0, k0, nn, i) && matched(n0, k0, nn, i) == j;
                            assert(reused@[i]);
                            assert(cs[i] == WidgetId { raw: c });
                        }
                    }
                    assert(cs.contains(WidgetId { raw: c }));
                } else {
                    assert(n[p] == nf0[p]);
                }
            }
        }
        proof {
            let n = self.nodes();
            let cs = children@;
            let kept_ids = Set::new(
                |r: u64| exists|i: int| 0 <= i < nn.len() && reused@[i] && cs[i].raw == r,
            );
            assert forall|i: int| 0 <= i < nn.len() && #[trigger] reused@[i] implies cs[i] == k0[matched(n0, k0, nn, i)]
                && n[cs[i].raw] == (NodeView { key: key_view(nn[i].key), dirty: true, ..n0[cs[i].raw] }) by {
                assert(cs[i].raw != parent.raw) by {
                    lemma_candidate_range(ok, spec_keys(nn), i);
                    let mj = matched(n0, k0, nn, i);
                    assert(n0.contains_key(k0[mj].raw));
                    assert(lv0(k0[mj].raw) == lv0(parent.raw) + 1);
                }
                assert(raw_set(cs).contains(cs[i].raw));
                assert(n[cs[i].raw] == nf0[cs[i].raw]);
            }
            assert forall|i: int| 0 <= i < nn.len() && !(#[trigger] reused@[i]) implies !n0.dom().difference(gone).contains(cs[i].raw)
                && n[cs[i].raw] == (NodeView {
                    children: Seq::empty(),
                    parent: Some(parent),
                    key: key_view(nn[i].key),
                    type_tag: nn[i].type_tag,
                    dirty: true,
                }) by {
                assert(!nr.contains_key(cs[i].raw));
                assert(raw_set(cs).contains(cs[i].raw));
                assert(nr.contains_key(parent.raw));
                assert(cs[i].raw != parent.raw);
                assert(n[cs[i].raw] == nf0[cs[i].raw]);
            }
            assert(n.dom() =~= n0.dom().difference(gone).union(raw_set(cs)));
            assert forall|k: u64| #[trigger] n.contains_key(k) && k != parent.raw && !raw_set(cs).contains(k)
                implies n[k] == n0[k] by {
                assert(n[k] == nf0[k]);
                assert(nf0[k] == nr[k]);
            }
            assert forall|w: WidgetId| #[trigger] self.queue().contains(w) <==> ((q0.contains(w)
                && !removed@.contains(w)) || kept_ids.contains(w.raw)) by {
                assert(self.queue().contains(w) == qf.contains(w));
                if kept_ids.contains(w.raw) {
                    let i = choose|i: int| 0 <= i < nn.len() && reused@[i] && cs[i].raw == w.raw;
                    assert(cs[i] == w);
                }
                if exists|t: int| 0 <= t < nn.len() && reused@[t] && cs[t] == w {
                    let t = choose|t: int| 0 <= t < nn.len() && reused@[t] && cs[t] == w;
                    assert(kept_ids.contains(w.raw));
                }
            }
        }
        proof {
            let n = self.nodes();
            let cs = children@;
            assert(forall|j: u64| n0.contains_key(j) && n.contains_key(j) ==> !gone.contains(j)) by {
                assert forall|j: u64| n0.contains_key(j) && n.contains_key(j) implies !gone.contains(j) by {
                    if raw_set(cs).contains(j) {
                        let i = choose|i: int| 0 <= i < cs.len() && cs[i] == WidgetId { raw: j };
                        if reused@[i] {
                            lemma_candidate_range(ok, spec_keys(nn), i);
                            assert(reuses(n0, k0, nn, i));
                            assert(kept(n0, k0, nn, matched(n0, k0, nn, i)));
                            assert(nr.contains_key(k0[matched(n0, k0, nn, i)].raw));
                        }
                    }
                }
            }
            assert(forall|j: u64| #[trigger] n0.contains_key(j) && n.contains_key(j) ==> n[j].parent == n0[j].parent) by {
                assert forall|j: u64| #[trigger] n0.contains_key(j) && n.contains_key(j) implies n[j].parent == n0[j].parent by {
                    if raw_set(cs).contains(j) && j != parent.raw {
                        let i = choose|i: int| 0 <= i < cs.len() && cs[i] == WidgetId { raw: j };
                        assert(cs[i].raw == j);
                        if !reused@[i] {
                            assert(!n0.contains_key(cs[i].raw));
                        }
                    }
                }
            }
            assert(forall|j: int| 0 <= j < k0.len() ==> gone.contains(#[trigger] k0[j].raw) || cs.contains(k0[j])) by {
                assert forall|j: int| 0 <= j < k0.len() implies gone.contains(#[trigger] k0[j].raw) || cs.contains(k0[j]) by {
                    if kept(n0, k0, nn, j) {
                        let i = choose|i: int| 0 <= i < nn.len() && #[trigger] reuses(n0, k0, nn, i) && matched(n0, k0, nn, i) == j;
                        assert(reused@[i]);
                        assert(cs[i] == k0[j]);
                    } else {
                        assert(dropped(n0, k0, nn).contains(k0[j].raw));
                    }
                }
            }
            assert forall|w: RebuildWalk| w.pending_view() == Some(parent) && #[trigger] pass_covers(n0, w) implies pass_covers(n, w) by {
                lemma_reconcile_covers(n0, n, parent, cs, gone, w.stack_view());
            }
        }
        ReconcileOutcome { children, reused, removed }
    }

    /// Queues `id` for rebuild; a widget whose signal fired. A widget that
    /// is no longer mounted has no notifier left, so nothing is queued.
    pub fn mark_dirty(&mut self, id: WidgetId)
        requires
            old(self).wf(),
        ensures
            final(self).wf(),
            forall|w: WidgetId|
                #[trigger] final(self).queue().contains(w) <==> (old(self).queue().contains(w) || (w == id
                    && old(self).nodes().contains_key(id.raw))),
            final(self).nodes() == old(self).nodes(),
            final(self).root_id() == old(self).root_id(),
            final(self).theme_view() == old(self).theme_view(),
    {
        if !is_canonical(id.raw) {
            return;
        }
        if store_get(&self.nodes, id).is_none() {
            return;
        }
        let ghost tb = *self;
        self.queue_insert(id);
        proof {
            self.lemma_growth_keeps(&tb);
        }
    }

    /// Replaces the theme and queues every mounted widget for rebuild,
    /// since any of them may read theme tokens.
    pub fn set_theme(&mut self, theme: Th)
        requires
            old(self).wf(),
        ensures
            final(self).wf(),
            final(self).theme_view() == theme,
            forall|w: WidgetId|
                #[trigger] final(self).queue().contains(w) <==> (old(self).queue().contains(w)
                    || old(self).nodes().contains_key(w.raw)),
            final(self).nodes() == old(self).nodes(),
            final(self).root_id() == old(self).root_id(),
    {
        let ghost t0 = *self;
        self.theme = theme;
        proof {
            self.lemma_growth_keeps(&t0);
        }
        let ids = store_ids(&self.nodes);
        let ghost q0 = self.dirty_queue@;
        let mut k: usize = 0;
        while k < ids.len()
            invariant
                self.wf(),
                self.nodes() == old(self).nodes(),
                self.root == old(self).root,
                self.theme == theme,
                k <= ids@.len(),
                forall|i: int| 0 <= i < ids@.len() ==> self.nodes().contains_key(#[trigger] ids@[i].raw),
                forall|r: u64| self.nodes().contains_key(r) ==> exists|i: int| 0 <= i < ids@.len() && #[trigger] ids@[i].raw == r,
                forall|w: WidgetId|
                    #[trigger] self.dirty_queue@.contains(w) <==> (q0.contains(w) || exists|i: int| 0 <= i < k && ids@[i] == w),
            decreases ids@.len() - k,
        {
            let ghost qb = self.dirty_queue@;
            let ghost tb = *self;
            self.queue_insert(ids[k]);
            proof {
                self.lemma_growth_keeps(&tb);
                assert forall|w: WidgetId|
                    #[trigger] self.dirty_queue@.contains(w) <==> (q0.contains(w) || exists|i: int| 0 <= i < k + 1 && ids@[i] == w) by {
                    assert(self.dirty_queue@.contains(w) == (qb.contains(w) || w == ids@[k as int]));
                    if exists|i: int| 0 <= i < k + 1 && ids@[i] == w {
                        let i = choose|i: int| 0 <= i < k + 1 && ids@[i] == w;
                        if i < k {
                            assert(qb.contains(w));
                        }
                    }
                }
            }
            k = k + 1;
        }
        proof {
            assert forall|w: WidgetId|
                #[trigger] self.queue().contains(w) <==> (q0.contains(w) || old(self).nodes().contains_key(w.raw)) by {
                assert(self.queue().contains(w) == self.dirty_queue@.contains(w));
                if old(self).nodes().contains_key(w.raw) {
                    let i = choose|i: int| 0 <= i < ids@.len() && #[trigger] ids@[i].raw == w.raw;
                    assert(ids@[i] == w);
                }
            }
        }
    }

    /// The active theme.
    pub fn theme(&self) -> (r: &Th)
        ensures
            *r == self.theme_view(),
    {
        &self.theme
    }

    /// Number of mounted widgets.
    pub fn widget_count(&self) -> (n: usize)
        requires
            self.wf(),
        ensures
            n == self.nodes().dom().len(),
    {
        assert(self.nodes().dom() =~= store_contents(self.nodes).dom());
        store_len(&self.nodes)
    }

    /// The root widget, if a root has been set.
    pub fn root(&self) -> (r: Option<WidgetId>)
        ensures
            r == self.root_id(),
    {
        self.root
    }

    /// The children of a mounted widget, in order; `None` if `id` is not
    /// mounted.
    pub fn children_of(&self, id: WidgetId) -> (r: Option<Vec<WidgetId>>)
        requires
            self.wf(),
        ensures
            r matches Some(v) ==> self.nodes().contains_key(id.raw) && v@ == self.nodes()[id.raw].children,
            r is None ==> !self.nodes().contains_key(id.raw),
    {
        if !is_canonical(id.raw) {
            return None;
        }
        match store_get(&self.nodes, id) {
            Some(e) => Some(copy_ids(&e.children)),
            None => None,
        }
    }

    /// Whether some mounted widget carries its dirty flag.
    pub fn any_dirty(&self) -> (r: bool)
        requires
            self.wf(),
        ensures
            r == exists|k: u64| #[trigger] self.nodes().contains_key(k) && self.nodes()[k].dirty,
    {
        let ids = store_ids(&self.nodes);
        let mut k: usize = 0;
        while k < ids.len()
            invariant
                self.wf(),
                k <= ids@.len(),
                forall|i: int| 0 <= i < ids@.len() ==> self.nodes().contains_key(#[trigger] ids@[i].raw),
                forall|r: u64| self.nodes().contains_key(r) ==> exists|i: int| 0 <= i < ids@.len() && #[trigger] ids@[i].raw == r,
                forall|i: int| 0 <= i < k ==> !self.nodes()[(#[trigger] ids@[i]).raw].dirty,
            decreases ids@.len() - k,
        {
            let id = ids[k];
            assert(self.nodes().contains_key(id.raw));
            let e = store_get(&self.nodes, id).unwrap();
            assert(self.nodes()[id.raw] == e@);
            if e.dirty {
                return true;
            }
            k = k + 1;
        }
        proof {
            if exists|k: u64| #[trigger] self.nodes().contains_key(k) && self.nodes()[k].dirty {
                let k = choose|k: u64| #[trigger] self.nodes().contains_key(k) && self.nodes()[k].dirty;
                let i = choose|i: int| 0 <= i < ids@.len() && #[trigger] ids@[i].raw == k;
            }
        }
        false
    }

    /// Starts a rebuild pass: takes the queued widgets. Returns `None` when
    /// nothing is queued and no widget carries its dirty flag (nothing to
    /// rebuild); otherwise a pass that starts at the root.
    pub fn rebuild_begin(&mut self) -> (r: Option<RebuildWalk>)
        requires
            old(self).wf(),
        ensures
            final(self).wf(),
            final(self).queue().len() == 0,
            final(self).nodes() == old(self).nodes(),
            final(self).root_id() == old(self).root_id(),
            final(self).theme_view() == old(self).theme_view(),
            r is None <==> (old(self).queue().len() == 0 && !exists|k: u64|
                #[trigger] old(self).nodes().contains_key(k) && old(self).nodes()[k].dirty),
            r matches Some(w) ==> w.dirty_view() == old(self).queue() && w.pending_view() is None
                && w.stack_view() == (match old(self).root_id() {
                    Some(root) => seq![root],
                    None => Seq::<WidgetId>::empty(),
                }),
            r matches Some(w) ==> pass_covers(final(self).nodes(), w),
    {
        let mut dirty: Vec<WidgetId> = Vec::new();
        let ghost t0 = *self;
        std::mem::swap(&mut dirty, &mut self.dirty_queue);
        proof {
            self.lemma_growth_keeps(&t0);
        }
        let any = self.any_dirty();
        if dirty.len() == 0 && !any {
            return None;
        }
        let mut stack: Vec<WidgetId> = Vec::new();
        match self.root {
            Some(root) => {
                stack.push(root);
                assert(stack@ =~= seq![root]);
                proof {
                    let n = self.nodes();
                    assert forall|k: u64| #[trigger] n.contains_key(k) && n[k].dirty implies exists|i: int, f: nat|
                        0 <= i < stack@.len() && #[trigger] under(n, k, stack@[i].raw, f) by {
                        self.lemma_under_root_within(k);
                        assert(under(n, k, stack@[0].raw, self.levels@[k]));
                    }
                }
            },
            None => {
                proof {
                    let n = self.nodes();
                    assert forall|k: u64| #[trigger] n.contains_key(k) && n[k].dirty implies exists|i: int, f: nat|
                        0 <= i < stack@.len() && #[trigger] under(n, k, stack@[i].raw, f) by {
                        self.lemma_no_root_empty(k);
                    }
                }
            },
        }
        Some(RebuildWalk { stack, dirty, pending: None })
    }

    /// Advances a rebuild pass by one widget, in depth-first order with
    /// parents before children and children in order. A widget is built
    /// when it carries its dirty flag or was queued when the pass began;
    /// its dirty flag is cleared as it is handed out. A pass begun by
    /// `rebuild_begin`, in which between steps only the widget just built is
    /// reconciled, keeps every dirty widget within its reach (`pass_covers`),
    /// so when it is done no mounted widget carries its dirty flag.
    pub fn rebuild_step(&mut self, walk: &mut RebuildWalk) -> (step: WalkStep)
        requires
            old(self).wf(),
        ensures
            final(self).wf(),
            final(self).queue() == old(self).queue(),
            final(self).root_id() == old(self).root_id(),
            final(self).theme_view() == old(self).theme_view(),
            final(walk).dirty_view() == old(walk).dirty_view(),
            pass_covers(old(self).nodes(), *old(walk)) ==> pass_covers(final(self).nodes(), *final(walk)),
            pass_covers(old(self).nodes(), *old(walk)) && step == WalkStep::Done ==> forall|k: u64|
                #[trigger] final(self).nodes().contains_key(k) ==> !final(self).nodes()[k].dirty,
            ({
                let n = old(self).nodes();
                let s1 = walk_frontier(n, old(walk).stack_view(), old(walk).pending_view());
                if s1.len() == 0 {
                    &&& step == WalkStep::Done
                    &&& final(self).nodes() == n
                    &&& final(walk).stack_view().len() == 0
                    &&& final(walk).pending_view() is None
                } else {
                    let x = s1.last();
                    let build = n.contains_key(x.raw) && (n[x.raw].dirty || old(walk).dirty_view().contains(x));
                    if build {
                        &&& step == WalkStep::Build(x)
                        &&& final(self).nodes() == n.insert(x.raw, NodeView { dirty: false, ..n[x.raw] })
                        &&& final(walk).stack_view() == s1.drop_last()
                        &&& final(walk).pending_view() == Some(x)
                    } else {
                        &&& step == WalkStep::Visit(x)
                        &&& final(self).nodes() == n
                        &&& final(walk).stack_view() == (if n.contains_key(x.raw) {
                            s1.drop_last() + n[x.raw].children.reverse()
                        } else {
                            s1.drop_last()
                        })
                        &&& final(walk).pending_view() is None
                    }
                }
            }),
    {
        let ghost n = self.nodes();
        match walk.pending {
            Some(p) => {
                match self.children_of(p) {
                    Some(kids) => push_reversed(&mut walk.stack, &kids),
                    None => {},
                }
            },
            None => {},
        }
        walk.pending = None;
        let ghost s1 = walk.stack@;
        assert(s1 == walk_frontier(n, old(walk).stack_view(), old(walk).pending_view()));
        let x = match walk.stack.pop() {
            Some(x) => x,
            None => {
                proof {
                    assert forall|k: u64| #[trigger] n.contains_key(k) && pass_covers(n, *old(walk)) implies !n[k].dirty by {
                        if n[k].dirty {
                            let (i, f) = choose|i: int, f: nat| 0 <= i < s1.len() && #[trigger] under(n, k, s1[i].raw, f);
                        }
                    }
                }
                return WalkStep::Done;
            },
        };
        assert(s1.last() == x && walk.stack@ == s1.drop_last());
        if !is_canonical(x.raw) {
            assert(!n.contains_key(x.raw));
            proof {
                if pass_covers(n, *old(walk)) {
                    self.lemma_pop_covers(s1);
                    assert(walk.stack@ =~= s1.drop_last() + Seq::<WidgetId>::empty());
                }
            }
            return WalkStep::Visit(x);
        }
        match store_get(&self.nodes, x) {
            None => {
                proof {
                    if pass_covers(n, *old(walk)) {
                        self.lemma_pop_covers(s1);
                        assert(walk.stack@ =~= s1.drop_last() + Seq::<WidgetId>::empty());
                    }
                }
                WalkStep::Visit(x)
            },
            Some(e) => {
                assert(n[x.raw] == e@);
                if e.dirty || contains_id(&walk.dirty, x) {
                    let mut e2 = copy_entry(e);
                    e2.dirty = false;
                    let ghost m0 = self.nodes;
                    let ghost tb = *self;
                    store_replace(&mut self.nodes, x, e2);
                    proof {
                        lemma_views_insert(m0, self.nodes, x.raw, e2);
                        assert(self.nodes().dom() =~= tb.nodes().dom());
                        self.lemma_growth_keeps(&tb);
                        let n1 = self.nodes();
                        if pass_covers(n, *old(walk)) {
                            assert forall|k: u64| #[trigger] n1.contains_key(k) && n1[k].dirty implies exists|i: int, f: nat|
                                0 <= i < s1.len() && #[trigger] under(n1, k, s1[i].raw, f) by {
                                assert(k != x.raw);
                                assert(n1[k] == n[k]);
                                let (i, f) = choose|i: int, f: nat| 0 <= i < s1.len() && #[trigger] under(n, k, s1[i].raw, f);
                                lemma_under_same_links(n, n1, k, s1[i].raw, f);
                            }
                            self.lemma_pop_covers(s1);
                        }
                    }
                    walk.pending = Some(x);
                    WalkStep::Build(x)
                } else {
                    let kids = copy_ids(&e.children);
                    push_reversed(&mut walk.stack, &kids);
                    proof {
                        if pass_covers(n, *old(walk)) {
                            self.lemma_pop_covers(s1);
                        }
                    }
                    WalkStep::Visit(x)
                }
            },
        }
    }

    /// The depth bookkeeping of the tree.
    pub closed spec fn depths(&self) -> Map<u64, nat> {
        self.levels@
    }

    /// Whether `m` bounds the depth of every mounted widget.
    pub closed spec fn bounds_depths(&self, m: nat) -> bool {
        forall|k: u64| #[trigger] self.nodes().contains_key(k) ==> self.levels@[k] <= m
    }

    /// A bound on the depth of every mounted widget.
    pub closed spec fn depth_limit(&self) -> nat {
        choose|m: nat| #[trigger] self.bounds_depths(m)
    }

    /// The widgets a dispatch offers an event to, in order: every widget
    /// after the widgets below it, children taken last-first.
    pub open spec fn dispatch_order(&self) -> Seq<WidgetId> {
        match self.root_id() {
            Some(r) => offer_order(self.nodes(), self.depths(), self.depth_limit(), r),
            None => Seq::empty(),
        }
    }

    /// The offers a dispatch in state `w` still has to make.
    pub open spec fn pending_offers(&self, w: DispatchWalk) -> Seq<WidgetId> {
        stack_offers(self.nodes(), self.depths(), self.depth_limit(), w.stack_view())
    }

    proof fn lemma_bounded_levels(n: Map<u64, NodeView>, lv: Map<u64, nat>, s: Set<u64>) -> (m: nat)
        requires
            s.finite(),
        ensures
            forall|k: u64| #[trigger] s.contains(k) ==> lv[k] <= m,
        decreases s.len(),
    {
        if s.len() == 0 {
            0
        } else {
            let x = s.choose();
            let m0 = Self::lemma_bounded_levels(n, lv, s.remove(x));
            let m1: nat = if lv[x] > m0 { lv[x] } else { m0 };
            assert forall|k: u64| #[trigger] s.contains(k) implies lv[k] <= m1 by {
                if k != x {
                    assert(s.remove(x).contains(k));
                }
            }
            m1
        }
    }

    /// Under the invariant every mounted widget has a depth within the
    /// limit, and a mounted child is one deeper than its parent.
    pub proof fn law_depths(&self)
        requires
            self.wf(),
        ensures
            forall|k: u64| #[trigger] self.nodes().contains_key(k) ==> self.depths().contains_key(k) && self.depths()[k]
                <= self.depth_limit(),
            forall|p: u64, i: int|
                #![trigger self.nodes()[p].children[i]]
                self.nodes().contains_key(p) && 0 <= i < self.nodes()[p].children.len() ==> self.depths()[self.nodes()[p].children[i].raw]
                    == self.depths()[p] + 1,
    {
        let n = self.nodes();
        let m = Self::lemma_bounded_levels(n, self.levels@, n.dom());
        assert(self.bounds_depths(m));
        assert forall|p: u64, i: int|
            #![trigger n[p].children[i]]
            n.contains_key(p) && 0 <= i < n[p].children.len() implies self.levels@[n[p].children[i].raw]
                == self.levels@[p] + 1 by {
            let c = n[p].children[i].raw;
            assert(n.contains_key(c) && n[c].parent == Some(WidgetId { raw: p }));
        }
    }

    /// Starts dispatching an event: from the root, if any. An event that is
    /// not `routed` to widgets (an application-defined event) is offered to
    /// none of them, and the dispatch ends unconsumed.
    pub fn dispatch_begin(&self, routed: bool) -> (w: DispatchWalk)
        ensures
            w.stack_view() == (match self.root_id() {
                Some(root) => if routed {
                    seq![(root, false)]
                } else {
                    Seq::<(WidgetId, bool)>::empty()
                },
                None => Seq::<(WidgetId, bool)>::empty(),
            }),
            !w.consumed_view(),
            self.pending_offers(w) == (if routed {
                self.dispatch_order()
            } else {
                Seq::<WidgetId>::empty()
            }),
    {
        let mut stack: Vec<(WidgetId, bool)> = Vec::new();
        if !routed {
            return DispatchWalk { stack, consumed: false };
        }
        match self.root {
            Some(root) => {
                stack.push((root, false));
                assert(stack@ =~= seq![(root, false)]);
                proof {
                    let (n, lv, m) = (self.nodes(), self.depths(), self.depth_limit());
                    assert(stack@.drop_last() =~= Seq::<(WidgetId, bool)>::empty());
                    assert(stack@.last() == (root, false));
                    assert(entry_offers(n, lv, m, (root, false)) == offer_order(n, lv, m, root));
                    assert(stack_offers(n, lv, m, Seq::<(WidgetId, bool)>::empty()) == Seq::<WidgetId>::empty());
                    assert(stack_offers(n, lv, m, stack@) =~= offer_order(n, lv, m, root));
                }
            },
            None => {},
        }
        DispatchWalk { stack, consumed: false }
    }

    /// Advances a dispatch by one widget. The deepest widgets are offered
    /// the event first: a widget is offered it after all its descendants,
    /// its children taken last-first; widgets that are not mounted are
    /// passed over.
    pub fn dispatch_step(&self, walk: &mut DispatchWalk) -> (step: DispatchStep)
        requires
            self.wf(),
        ensures
            ({
                let n = self.nodes();
                let s = old(walk).stack_view();
                if s.len() == 0 {
                    &&& step == DispatchStep::Done
                    &&& final(walk).stack_view() == s
                } else {
                    let (x, expanded) = s.last();
                    if expanded {
                        &&& step == DispatchStep::Offer(x)
                        &&& final(walk).stack_view() == s.drop_last()
                    } else if n.contains_key(x.raw) {
                        &&& step == DispatchStep::Visit(x)
                        &&& final(walk).stack_view() == s.drop_last().push((x, true)) + unexpanded(
                            n[x.raw].children,
                        )
                    } else {
                        &&& step == DispatchStep::Visit(x)
                        &&& final(walk).stack_view() == s.drop_last()
                    }
                }
            }),
            self.pending_offers(*old(walk)) == step_offers(step) + self.pending_offers(*final(walk)),
            final(walk).consumed_view() == old(walk).consumed_view(),
    {
        let ghost (n, lv, m) = (self.nodes(), self.depths(), self.depth_limit());
        let ghost s0 = walk.stack@;
        let (x, expanded) = match walk.stack.pop() {
            Some(top) => top,
            None => {
                proof {
                    assert(step_offers(DispatchStep::Done) + stack_offers(n, lv, m, s0) =~= stack_offers(n, lv, m, s0));
                }
                return DispatchStep::Done;
            },
        };
        proof {
            assert(s0.last() == (x, expanded));
            assert(walk.stack@ == s0.drop_last());
        }
        if expanded {
            return DispatchStep::Offer(x);
        }
        match self.children_of(x) {
            None => {
                proof {
                    assert(offer_order(n, lv, m, x) =~= Seq::<WidgetId>::empty());
                    assert(step_offers(DispatchStep::Visit(x)) + stack_offers(n, lv, m, walk.stack@) =~= stack_offers(
                        n,
                        lv,
                        m,
                        s0,
                    ));
                }
                DispatchStep::Visit(x)
            },
            Some(kids) => {
                walk.stack.push((x, true));
                let ghost base = walk.stack@;
                let mut k: usize = 0;
                while k < kids.len()
                    invariant
                        k <= kids@.len(),
                        walk.stack@ == base + unexpanded(kids@.take(k as int)),
                        walk.consumed == old(walk).consumed,
                    decreases kids@.len() - k,
                {
                    walk.stack.push((kids[k], false));
                    proof {
                        assert(unexpanded(kids@.take(k + 1)) =~= unexpanded(kids@.take(k as int)).push(
                            (kids@[k as int], false),
                        ));
                    }
                    k = k + 1;
                }
                proof {
                    assert(kids@.take(kids@.len() as int) =~= kids@);
                    self.law_depths();
                    assert(n.contains_key(x.raw));
                    let d = lv[x.raw];
                    assert forall|i: int| 0 <= i < kids@.len() && n.contains_key(#[trigger] kids@[i].raw) implies lv.contains_key(
                        kids@[i].raw,
                    ) && lv[kids@[i].raw] == d + 1 by {
                        assert(kids@[i] == n[x.raw].children[i]);
                    }
                    lemma_stack_children(n, lv, m, base, kids@, d);
                    let rest = s0.drop_last();
                    assert(base.drop_last() =~= rest);
                    assert(base.last() == (x, true));
                    assert(stack_offers(n, lv, m, base) =~= seq![x] + stack_offers(n, lv, m, rest));
                    assert(offer_order(n, lv, m, x) =~= children_offers(n, lv, m, kids@, d) + seq![x]);
                    assert(stack_offers(n, lv, m, s0) =~= offer_order(n, lv, m, x) + stack_offers(n, lv, m, rest));
                    assert(step_offers(DispatchStep::Visit(x)) + stack_offers(n, lv, m, walk.stack@) =~= stack_offers(
                        n,
                        lv,
                        m,
                        s0,
                    ));
                }
                DispatchStep::Visit(x)
            },
        }
    }

    proof fn lemma_union_member(&self, tops: Set<u64>, s1: Set<u64>, s2: Set<u64>, x: u64)
        requires
            self.wf(),
            is_subtree_union(self.nodes(), tops, s1),
            is_subtree_union(self.nodes(), tops, s2),
            s1.contains(x),
        ensures
            s2.contains(x),
        decreases self.level(x),
    {
        let n = self.nodes();
        if !tops.contains(x) {
            assert(n.contains_key(x));
            let p = n[x].parent->0.raw;
            assert(self.levels@[x] == self.levels@[p] + 1);
            self.lemma_union_member(tops, s1, s2, p);
            let i = choose|i: int| 0 <= i < n[p].children.len() && n[p].children[i] == WidgetId { raw: x };
            assert(n[p].children[i].raw == x);
        }
    }

    /// The union of the subtrees rooted at a set of widgets is determined by
    /// the tree: what `remove_subtree` removes, and what `reconcile`
    /// removes with the children it drops, is exactly their descendants.
    pub proof fn law_subtree_union_unique(&self, tops: Set<u64>, s1: Set<u64>, s2: Set<u64>)
        requires
            self.wf(),
            is_subtree_union(self.nodes(), tops, s1),
            is_subtree_union(self.nodes(), tops, s2),
        ensures
            s1 == s2,
    {
        assert forall|x: u64| s1.contains(x) implies s2.contains(x) by {
            self.lemma_union_member(tops, s1, s2, x);
        }
        assert forall|x: u64| s2.contains(x) implies s1.contains(x) by {
            self.lemma_union_member(tops, s2, s1, x);
        }
        assert(s1 =~= s2);
    }

    /// What lies strictly under a widget lies under one of its children.
    proof fn lemma_under_child(&self, k: u64, x: u64, f: nat)
        requires
            self.wf(),
            under(self.nodes(), k, x, f),
            k != x,
        ensures
            exists|j: int, g: nat|
                0 <= j < self.nodes()[x].children.len() && #[trigger] under(
                    self.nodes(),
                    k,
                    self.nodes()[x].children[j].raw,
                    g,
                ),
        decreases f,
    {
        let n = self.nodes();
        let q = n[k].parent->0.raw;
        assert(n[q].children.contains(WidgetId { raw: k }));
        if q == x {
            let j = choose|j: int| 0 <= j < n[x].children.len() && n[x].children[j] == WidgetId { raw: k };
            assert(under(n, k, n[x].children[j].raw, 0));
        } else {
            self.lemma_under_child(q, x, (f - 1) as nat);
            let (j, g) = choose|j: int, g: nat|
                0 <= j < n[x].children.len() && #[trigger] under(n, q, n[x].children[j].raw, g);
            if k == n[x].children[j].raw {
                assert(under(n, k, n[x].children[j].raw, 0));
            } else {
                assert(under(n, k, n[x].children[j].raw, g + 1));
            }
        }
    }

    /// Replacing the top of a pass's frontier by its children, when the top
    /// is clean, keeps every dirty widget within reach.
    proof fn lemma_pop_covers(&self, s1: Seq<WidgetId>)
        requires
            self.wf(),
            s1.len() > 0,
            dirt_covered(self.nodes(), s1),
            self.nodes().contains_key(s1.last().raw) ==> !self.nodes()[s1.last().raw].dirty,
        ensures
            dirt_covered(
                self.nodes(),
                s1.drop_last() + (if self.nodes().contains_key(s1.last().raw) {
                    self.nodes()[s1.last().raw].children.reverse()
                } else {
                    Seq::<WidgetId>::empty()
                }),
            ),
    {
        let n = self.nodes();
        let x = s1.last();
        let kids = if n.contains_key(x.raw) {
            n[x.raw].children.reverse()
        } else {
            Seq::<WidgetId>::empty()
        };
        let rest = s1.drop_last() + kids;
        assert forall|k: u64| #[trigger] n.contains_key(k) && n[k].dirty implies exists|i: int, f: nat|
            0 <= i < rest.len() && #[trigger] under(n, k, rest[i].raw, f) by {
            let (i, f) = choose|i: int, f: nat| 0 <= i < s1.len() && #[trigger] under(n, k, s1[i].raw, f);
            if i < s1.len() - 1 {
                assert(rest[i] == s1[i]);
            } else {
                assert(s1[i] == x);
                lemma_under_top(n, k, x.raw, f);
                self.lemma_under_child(k, x.raw, f);
                let (j, g) = choose|j: int, g: nat|
                    0 <= j < n[x.raw].children.len() && #[trigger] under(n, k, n[x.raw].children[j].raw, g);
                let idx = s1.len() - 1 + (n[x.raw].children.len() - 1 - j);
                assert(rest[idx] == n[x.raw].children[j]);
            }
        }
    }

    /// Every mounted widget lies under the root, as many links away as its
    /// depth.
    proof fn lemma_under_root_within(&self, k: u64)
        requires
            self.wf(),
            self.root is Some,
            self.nodes().contains_key(k),
        ensures
            under(self.nodes(), k, self.root->0.raw, self.levels@[k]),
        decreases self.levels@[k],
    {
        reveal(WidgetTree::rooted);
        let n = self.nodes();
        if n[k].parent is None {
            assert(self.root == Some(WidgetId { raw: k }));
        } else {
            let q = n[k].parent->0.raw;
            assert(self.levels@[k] == self.levels@[q] + 1);
            self.lemma_under_root_within(q);
        }
    }

    /// Every mounted widget lies under the root: a tree with widgets has a
    /// root, and the root's subtree holds every widget.
    pub proof fn law_all_under_root(&self, s: Set<u64>, k: u64)
        requires
            self.wf(),
            self.nodes().contains_key(k),
        ensures
            self.root_id() is Some,
            is_subtree_union(self.nodes(), set![self.root_id()->0.raw], s) ==> s.contains(k),
    {
        if self.root is None {
            self.lemma_no_root_empty(k);
        } else if is_subtree_union(self.nodes(), set![self.root_id()->0.raw], s) {
            self.lemma_under_root(s, k);
        }
    }

    /// Only mounted widgets are queued for rebuild.
    pub proof fn law_queue_mounted(&self, w: WidgetId)
        requires
            self.wf(),
            self.queue().contains(w),
        ensures
            self.nodes().contains_key(w.raw),
    {
        reveal(WidgetTree::queue_mounted);
        let i = choose|i: int| 0 <= i < self.dirty_queue@.len() && self.dirty_queue@[i] == w;
        assert(self.nodes().contains_key(self.dirty_queue@[i].raw));
    }

    /// A dispatch whose stack is empty, because it has run out or because a
    /// widget consumed the event, offers the event to no further widget.
    pub proof fn law_empty_dispatch_offers_nothing(&self, w: DispatchWalk)
        requires
            w.stack_view().len() == 0,
        ensures
            self.pending_offers(w) == Seq::<WidgetId>::empty(),
    {
    }

    /// Creates an empty tree with the given theme.
    pub fn new(theme: Th) -> (t: Self)
        ensures
            t.wf(),
            t.nodes() == Map::<u64, NodeView>::empty(),
            t.root_id() is None,
            t.queue() == Seq::<WidgetId>::empty(),
            t.theme_view() == theme,
    {
        let t = WidgetTree {
            nodes: store_new(),
            root: None,
            dirty_queue: Vec::new(),
            theme,
            levels: Ghost(Map::empty()),
        };
        assert(t.nodes() =~= Map::<u64, NodeView>::empty());
        proof {
            reveal(WidgetTree::rooted);
            reveal(WidgetTree::queue_mounted);
        }
        t
    }
}

/// Rebuilding a widget with children of the same keys (none repeated) and
/// the same types as its current children, in the same order, keeps every
/// child in place: each rebuilt child takes over the child at its position.
pub proof fn law_same_children_reused(n: Map<u64, NodeView>, kids: Seq<WidgetId>, new: Seq<NodeSpec>, i: int)
    requires
        spec_keys(new) == child_keys(n, kids),
        keys_unique(child_keys(n, kids)),
        new.len() == kids.len(),
        forall|j: int| 0 <= j < kids.len() ==> n[kids[j].raw].type_tag == new[j].type_tag,
        0 <= i < new.len(),
    ensures
        matched(n, kids, new, i) == i,
        reuses(n, kids, new, i),
{
    assert(child_keys(n, kids).len() == kids.len());
    law_same_children_match_in_place(child_keys(n, kids), i);
}

} // verus!
