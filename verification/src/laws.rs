//! Laws the storage layer guarantees across operations, stated over the
//! world's specification model and proved once for every world.

use vstd::prelude::*;

use crate::errors::WorldError;
use crate::masks::lemma_covers_bit;
use crate::masks::lemma_covers_empty;
use crate::masks::lemma_set_bit;
use crate::world::World;

verus! {

/// Slot reuse is deterministic: the "lowest free index wins" rule that
/// `spawn_entity` ensures picks exactly one slot, so for any sequence of
/// spawns and deletes the index an entity gets is fully determined. No two
/// live entities can share an index, an entity being nothing but its index.
pub proof fn lemma_spawn_slot_deterministic<C>(w: World<C>, e1: int, e2: int)
    requires
        0 <= e1 <= w.num_entities(),
        0 <= e2 <= w.num_entities(),
        forall|j: int| 0 <= j < e1 ==> #[trigger] w.mask_of(j) != 0,
        forall|j: int| 0 <= j < e2 ==> #[trigger] w.mask_of(j) != 0,
        e1 < w.num_entities() ==> w.mask_of(e1) == 0,
        e2 < w.num_entities() ==> w.mask_of(e2) == 0,
    ensures
        e1 == e2,
{
}

/// A freshly registered type's bit position was never previously assigned:
/// `ensure_component` hands an unseen key the bit equal to the old type
/// count, and every earlier key keeps a strictly smaller bit. Together with
/// `World::lemma_component_bits_distinct` this pins the assignment as fresh
/// and stable for the world's lifetime.
pub proof fn lemma_fresh_bit_never_assigned<C>(pre: World<C>, post: World<C>, key: u64)
    requires
        pre.wf(),
        post.wf(),
        !pre.is_registered(key),
        post.type_keys() == pre.type_keys().push(key),
    ensures
        post.bit_of(key) == pre.num_types(),
        forall|k2: u64|
            pre.is_registered(k2) ==> #[trigger] pre.bit_of(k2) != post.bit_of(key),
{
    post.lemma_key_at_bit(key, pre.num_types() as int);
    assert forall|k2: u64| pre.is_registered(k2) implies #[trigger] pre.bit_of(k2)
        != post.bit_of(key) by {
        pre.lemma_bit_of_registered(k2);
    }
}

/// Round trip: a component just written is read straight back.
///
/// After `add_component(entity_id, key, c)` returns `Ok`, its contract gives
/// exactly the premises below; `get_component(entity_id, key)` then returns
/// `Ok` with a reference to `c`, because its result equals `read_slot`.
pub proof fn lemma_add_then_get_round_trip<C>(w: World<C>, entity_id: usize, key: u64, c: C)
    requires
        w.wf(),
        w.has_component(entity_id as int, key),
        w.slot_of(key, entity_id as int) == Some(c),
    ensures
        w.read_slot(entity_id, key) == Ok::<C, WorldError>(c),
{
}

/// A deleted component never matches: once the mask bit of `key` is clear on
/// an entity — as `delete_component` ensures — no query whose predicate was
/// widened by `key` (as `with_component` builds it) can match that entity,
/// even though the physical slot may still hold the old value.
pub proof fn lemma_deleted_component_not_matched<C>(
    w: World<C>,
    entity_id: usize,
    key: u64,
    rest: u128,
    pred: u128,
)
    requires
        w.wf(),
        w.is_registered(key),
        !w.has_component(entity_id as int, key),
        pred == rest | (1u128 << w.bit_of(key) as u128),
    ensures
        !w.query_matches(entity_id as int, pred),
{
    w.lemma_bit_of_registered(key);
    let b = w.bit_of(key) as u128;
    lemma_set_bit(rest, b, b);
    if w.query_matches(entity_id as int, pred) {
        lemma_covers_bit(w.mask_of(entity_id as int), pred, b);
        assert(w.has_component(entity_id as int, key));
    }
}

/// The empty predicate matches every entity slot, so a query built with no
/// `with_component` call lists every live entity, in ascending index order
/// as `run` ensures. (Dead slots also match the empty predicate; only a
/// world without freed slots gets exactly its live entities back.)
pub proof fn lemma_empty_query_matches_all<C>(w: World<C>)
    requires
        w.wf(),
    ensures
        forall|e: int| 0 <= e < w.num_entities() ==> w.query_matches(e, 0),
        forall|e: int| w.is_live(e) ==> w.query_matches(e, 0),
{
    assert forall|e: int| 0 <= e < w.num_entities() implies w.query_matches(e, 0) by {
        lemma_covers_empty(w.mask_of(e));
    }
}

} // verus!
