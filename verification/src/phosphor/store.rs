//! The widget-node store: a generation-checked slot map from widget handles
//! to node records, reached only through the trusted items of this file.

use crate::ids::WidgetId;
use slotmap::{DefaultKey, Key, KeyData, SlotMap};
use vstd::prelude::*;

verus! {

/// The bookkeeping record of one mounted widget.
#[derive(Debug, Clone)]
pub struct NodeEntry {
    /// Children in layout order.
    pub children: Vec<WidgetId>,
    /// The parent widget; `None` for the root.
    pub parent: Option<WidgetId>,
    /// Optional reconciliation key, unique among siblings by convention.
    pub key: Option<String>,
    /// Identity of the widget's concrete type.
    pub type_tag: u64,
    /// Whether the widget must be rebuilt on the next rebuild pass.
    pub dirty: bool,
}

/// The slot map that holds the node records. Verus refuses a declaration
/// of `SlotMap` itself (its key bound is a trait of the slot-map crate), so
/// the map sits in the private field of this opaque struct and is reached
/// only through the trusted items below.
#[verifier::external_body]
pub struct NodeMap {
    map: SlotMap<DefaultKey, NodeEntry>,
}

/// The live entries of a node store, by the 64-bit encoding of their keys.
pub uninterp spec fn store_contents(m: NodeMap) -> Map<u64, NodeEntry>;

/// The generation of every slot of a node store, by slot index: odd while
/// the slot is occupied, even while it is free.
pub uninterp spec fn store_generations(m: NodeMap) -> Map<u64, u64>;

/// The slot index half of a key encoding.
pub open spec fn slot_of(raw: u64) -> u64 {
    raw % 0x1_0000_0000
}

/// The generation half of a key encoding.
pub open spec fn generation_of(raw: u64) -> u64 {
    raw / 0x1_0000_0000
}

/// A key encoding is canonical when its generation half is odd: exactly the
/// encodings of occupied slot-map keys, which decode back to themselves.
pub open spec fn canonical(raw: u64) -> bool {
    generation_of(raw) % 2 == 1
}

/// A 32-bit generation counter advanced by one, wrapping to zero.
pub open spec fn next_generation(g: u64) -> u64 {
    if g + 1 < 0x1_0000_0000 {
        (g + 1) as u64
    } else {
        0
    }
}

/// The generation a slot had before its first use counts as zero.
pub open spec fn prior_generation(gens: Map<u64, u64>, slot: u64) -> u64 {
    if gens.contains_key(slot) {
        gens[slot]
    } else {
        0
    }
}

/// A key is live exactly when it is canonical and its slot is at the key's
/// generation; generations are 32-bit.
#[verifier::opaque]
pub open spec fn store_agrees(contents: Map<u64, NodeEntry>, gens: Map<u64, u64>) -> bool {
    &&& forall|k: u64|
        #[trigger] contents.contains_key(k) <==> canonical(k) && gens.contains_key(slot_of(k))
            && gens[slot_of(k)] == generation_of(k)
    &&& forall|i: u64| #[trigger] gens.contains_key(i) ==> gens[i] < 0x1_0000_0000
}

/// How far generation `a` is ahead of generation `b` on the 32-bit wheel.
pub open spec fn generation_distance(a: u64, b: u64) -> int {
    if a >= b {
        a - b
    } else {
        a + 0x1_0000_0000 - b
    }
}

/// Every slot of `g0` is still a slot of `g1`, at most `n` generations on.
pub open spec fn advanced_within(g0: Map<u64, u64>, g1: Map<u64, u64>, n: int) -> bool {
    forall|i: u64|
        #[trigger] g0.contains_key(i) ==> g1.contains_key(i) && generation_distance(g1[i], g0[i]) <= n
}

/// `g1` differs from `g0` only by slots that were occupied in `g0` and have
/// been freed once.
pub open spec fn freed_only(g0: Map<u64, u64>, g1: Map<u64, u64>) -> bool {
    &&& g1.dom() == g0.dom()
    &&& forall|i: u64|
        #[trigger] g0.contains_key(i) ==> g1[i] == g0[i] || (g0[i] % 2 == 1 && g1[i] == next_generation(
            g0[i],
        ))
}

/// The generations of an agreeing store are 32-bit, and a live key sits at
/// its slot's generation.
pub proof fn lemma_agrees(contents: Map<u64, NodeEntry>, gens: Map<u64, u64>)
    requires
        store_agrees(contents, gens),
    ensures
        forall|i: u64| #[trigger] gens.contains_key(i) ==> gens[i] < 0x1_0000_0000,
        forall|k: u64|
            #[trigger] contents.contains_key(k) <==> canonical(k) && gens.contains_key(slot_of(k))
                && gens[slot_of(k)] == generation_of(k),
{
    reveal(store_agrees);
}

/// Removing a key keeps the generations within `freed_only` of a start.
pub proof fn lemma_freed_step(
    contents: Map<u64, NodeEntry>,
    g0: Map<u64, u64>,
    g: Map<u64, u64>,
    g2: Map<u64, u64>,
    k: u64,
)
    requires
        store_agrees(contents, g),
        freed_only(g0, g),
        g2 == (if contents.contains_key(k) {
            g.insert(slot_of(k), next_generation(generation_of(k)))
        } else {
            g
        }),
    ensures
        freed_only(g0, g2),
{
    reveal(store_agrees);
    if contents.contains_key(k) {
        let s = slot_of(k);
        assert(g2.dom() =~= g0.dom());
        assert(g[s] % 2 == 1);
        assert(g[s] == g0[s]);
    }
}

/// Freeing slots moves each at most one generation on.
pub proof fn lemma_freed_advance(g0: Map<u64, u64>, g1: Map<u64, u64>)
    requires
        freed_only(g0, g1),
        forall|i: u64| #[trigger] g0.contains_key(i) ==> g0[i] < 0x1_0000_0000,
    ensures
        advanced_within(g0, g1, 1),
{
}

/// Inserting into a slot moves it one generation on.
pub proof fn lemma_insert_advance(g0: Map<u64, u64>, g1: Map<u64, u64>, raw: u64)
    requires
        generation_of(raw) == prior_generation(g0, slot_of(raw)) + 1,
        g1 == g0.insert(slot_of(raw), generation_of(raw)),
        forall|i: u64| #[trigger] g0.contains_key(i) ==> g0[i] < 0x1_0000_0000,
    ensures
        advanced_within(g0, g1, 1),
{
    assert(generation_of(raw) < 0x1_0000_0000) by (nonlinear_arith)
        requires
            generation_of(raw) == raw / 0x1_0000_0000,
    ;
}

/// Distances add up along a sequence of generation maps.
pub proof fn lemma_advance_trans(g0: Map<u64, u64>, g1: Map<u64, u64>, g2: Map<u64, u64>, a: int, b: int)
    requires
        advanced_within(g0, g1, a),
        advanced_within(g1, g2, b),
        forall|i: u64| #[trigger] g0.contains_key(i) ==> g0[i] < 0x1_0000_0000,
        forall|i: u64| #[trigger] g1.contains_key(i) ==> g1[i] < 0x1_0000_0000,
        forall|i: u64| #[trigger] g2.contains_key(i) ==> g2[i] < 0x1_0000_0000,
    ensures
        advanced_within(g0, g2, a + b),
{
    assert forall|i: u64| #[trigger] g0.contains_key(i) implies g2.contains_key(i) && generation_distance(
        g2[i],
        g0[i],
    ) <= a + b by {
        assert(g1.contains_key(i));
    }
}

/// A key handed out by an insertion after fewer than `2^32 - 1` steps from
/// `g0` differs from every key that was live at `g0`: its slot would have to
/// have gone all the way round the wheel.
pub proof fn lemma_fresh_key(g0: Map<u64, u64>, g: Map<u64, u64>, n: int, k: u64, raw: u64)
    requires
        g0.contains_key(slot_of(k)),
        g0[slot_of(k)] == generation_of(k),
        advanced_within(g0, g, n),
        n < 0x1_0000_0000 - 1,
        generation_of(raw) == prior_generation(g, slot_of(raw)) + 1,
        forall|i: u64| #[trigger] g.contains_key(i) ==> g[i] < 0x1_0000_0000,
    ensures
        raw != k,
{
    if raw == k {
        assert(g.contains_key(slot_of(k)));
    }
}

/// Freeing slots in two rounds frees each at most once: a freed slot is
/// free, so it cannot be freed again.
pub proof fn lemma_freed_trans(g0: Map<u64, u64>, g1: Map<u64, u64>, g2: Map<u64, u64>)
    requires
        freed_only(g0, g1),
        freed_only(g1, g2),
    ensures
        freed_only(g0, g2),
{
    assert forall|i: u64| #[trigger] g0.contains_key(i) implies g2[i] == g0[i] || (g0[i] % 2 == 1
        && g2[i] == next_generation(g0[i])) by {
        assert(g1.contains_key(i));
    }
}

/// An insertion after fewer than `2^32 - 2` generation steps from a store
/// `c0` hands out a key that was not live in `c0`, and the slots are then
/// one step further on.
pub proof fn lemma_insert_fresh(
    c0: Map<u64, NodeEntry>,
    g0: Map<u64, u64>,
    cb: Map<u64, NodeEntry>,
    gb: Map<u64, u64>,
    g1: Map<u64, u64>,
    n: int,
    raw: u64,
)
    requires
        store_agrees(c0, g0),
        store_agrees(cb, gb),
        advanced_within(g0, gb, n),
        0 <= n < 0x1_0000_0000 - 2,
        generation_of(raw) == prior_generation(gb, slot_of(raw)) + 1,
        g1 == gb.insert(slot_of(raw), generation_of(raw)),
    ensures
        !c0.contains_key(raw),
        advanced_within(g0, g1, n + 1),
{
    lemma_agrees(c0, g0);
    lemma_agrees(cb, gb);
    if c0.contains_key(raw) {
        lemma_fresh_key(g0, gb, n, raw, raw);
    }
    lemma_insert_advance(gb, g1, raw);
    assert(generation_of(raw) < 0x1_0000_0000) by (nonlinear_arith)
        requires
            generation_of(raw) == raw / 0x1_0000_0000,
    ;
    lemma_advance_trans(g0, gb, g1, n, 1);
}

/// Creates an empty slot map (`SlotMap::with_key`) inside a store.
#[verifier::external_body]
pub(crate) fn store_new() -> (r: NodeMap)
    ensures
        store_contents(r).dom() == Set::<u64>::empty(),
        store_agrees(store_contents(r), store_generations(r)),
{
    NodeMap { map: SlotMap::with_key() }
}

/// Inserts a record (`SlotMap::insert`). It takes a free slot or a new one
/// and sets the slot to the next (odd) generation; the key is that slot at
/// that generation. Which free slot it takes (the head of the free list) is
/// left unsaid. `insert` panics when no slot is free and `u32::MAX` slots
/// exist, that is with `u32::MAX - 1` live records, which the `requires`
/// rules out.
#[verifier::external_body]
pub(crate) fn store_insert(m: &mut NodeMap, e: NodeEntry) -> (id: WidgetId)
    requires
        store_contents(*old(m)).dom().len() < u32::MAX - 1,
    ensures
        !store_contents(*old(m)).contains_key(id.raw),
        canonical(id.raw),
        store_contents(*final(m)) == store_contents(*old(m)).insert(id.raw, e),
        generation_of(id.raw) == prior_generation(store_generations(*old(m)), slot_of(id.raw)) + 1,
        store_generations(*final(m)) == store_generations(*old(m)).insert(
            slot_of(id.raw),
            generation_of(id.raw),
        ),
        store_agrees(store_contents(*final(m)), store_generations(*final(m))),
{
    WidgetId { raw: m.map.insert(e).data().as_ffi() }
}

/// Looks up a record (`SlotMap::get`), decoding the handle with
/// `KeyData::from_ffi`.
#[verifier::external_body]
pub(crate) fn store_get<'a>(m: &'a NodeMap, id: WidgetId) -> (r: Option<
    &'a NodeEntry,
>)
    requires
        canonical(id.raw),
    ensures
        r matches Some(e) ==> store_contents(*m).contains_key(id.raw) && *e == store_contents(
            *m,
        )[id.raw],
        r is None ==> !store_contents(*m).contains_key(id.raw),
{
    m.map.get(DefaultKey::from(KeyData::from_ffi(id.raw)))
}

/// Replaces the record of a live handle (`IndexMut` of `SlotMap`, which
/// panics on a dead key: the `requires` rules that out).
#[verifier::external_body]
pub(crate) fn store_replace(m: &mut NodeMap, id: WidgetId, e: NodeEntry)
    requires
        canonical(id.raw),
        store_contents(*old(m)).contains_key(id.raw),
    ensures
        store_contents(*final(m)) == store_contents(*old(m)).insert(id.raw, e),
        store_generations(*final(m)) == store_generations(*old(m)),
        store_agrees(store_contents(*final(m)), store_generations(*final(m))),
{
    m.map[DefaultKey::from(KeyData::from_ffi(id.raw))] = e;
}

/// Removes a record (`SlotMap::remove`), handing it back if it was live;
/// removing a live key advances its slot's generation by one (wrapping).
#[verifier::external_body]
pub(crate) fn store_remove(m: &mut NodeMap, id: WidgetId) -> (r: Option<
    NodeEntry,
>)
    requires
        canonical(id.raw),
    ensures
        store_contents(*final(m)) == store_contents(*old(m)).remove(id.raw),
        r == store_contents(*old(m)).get(id.raw),
        store_generations(*final(m)) == if store_contents(*old(m)).contains_key(id.raw) {
            store_generations(*old(m)).insert(slot_of(id.raw), next_generation(generation_of(id.raw)))
        } else {
            store_generations(*old(m))
        },
        store_agrees(store_contents(*final(m)), store_generations(*final(m))),
{
    m.map.remove(DefaultKey::from(KeyData::from_ffi(id.raw)))
}

/// Number of live records (`SlotMap::len`).
#[verifier::external_body]
pub(crate) fn store_len(m: &NodeMap) -> (n: usize)
    ensures
        n == store_contents(*m).dom().len(),
{
    m.map.len()
}

/// The handles of all live records (`SlotMap::keys`), each once, in the
/// slot map's iteration order.
#[verifier::external_body]
pub(crate) fn store_ids(m: &NodeMap) -> (r: Vec<WidgetId>)
    ensures
        r@.no_duplicates(),
        forall|i: int| 0 <= i < r@.len() ==> store_contents(*m).contains_key(#[trigger] r@[i].raw),
        forall|k: u64|
            store_contents(*m).contains_key(k) ==> exists|i: int|
                0 <= i < r@.len() && #[trigger] r@[i].raw == k,
{
    m.map.keys().map(|k| WidgetId { raw: k.data().as_ffi() }).collect()
}

} // verus!
