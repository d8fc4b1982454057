//! The world: entity directory, per-type component storage, and the
//! singleton resource store.
//!
//! Component types are identified by caller-chosen `u64` keys. The first time
//! a key is seen it is assigned the next free bit position; the key at
//! position `k` of the registration order owns bit `k` of every entity's
//! membership mask. A mask of zero marks a dead entity slot, eligible for
//! reuse by the next spawn.
//!
//! Deleting a component only clears its mask bit; the physical slot may keep
//! stale data until it is overwritten. The mask is the source of truth for
//! membership (queries), while [`World::get_component`] reads the physical
//! slot, as storage-level reads are defined to do.

use vstd::prelude::*;

use crate::errors::WorldError;
use crate::masks::covers;
use crate::masks::lemma_clear_bit;
use crate::masks::lemma_covers_single_bit;
use crate::masks::lemma_set_bit;
use crate::masks::lemma_set_bit_in_zero;
use crate::masks::lemma_set_bit_nonzero;
use crate::masks::lemma_zero_mask_no_bits;
use crate::masks::mask_bit;
use crate::query::QueryBuilder;
use crate::MASK_WIDTH;

verus! {

/// The entity/component/resource store.
///
/// `C` is the payload type one world stores: a caller usually makes it an
/// enum with one variant per component kind and pairs each kind with a fixed
/// `u64` type key.
pub struct World<C> {
    /// Registered component type keys, in registration order. The key at
    /// position `k` owns bit `k` of every membership mask.
    registered_keys: Vec<u64>,
    /// One sparse set per registered type, indexed like `registered_keys`;
    /// each holds one optional slot per entity.
    sparse_sets: Vec<Vec<Option<C>>>,
    /// One membership mask per entity slot; all-zero means the slot is dead.
    entity_maps: Vec<u128>,
    /// Keys of the stored singleton resources, distinct, parallel to
    /// `resource_values`.
    resource_keys: Vec<u64>,
    /// The singleton resource values, parallel to `resource_keys`.
    resource_values: Vec<C>,
}

impl<C> World<C> {
    /// The registered component type keys, in registration order.
    pub closed spec fn type_keys(self) -> Seq<u64> {
        self.registered_keys@
    }

    /// How many distinct component types have been registered.
    pub open spec fn num_types(self) -> nat {
        self.type_keys().len()
    }

    /// Whether `key` has been registered with this world.
    pub open spec fn is_registered(self, key: u64) -> bool {
        self.type_keys().contains(key)
    }

    /// The bit position assigned to `key`: its position in the registration
    /// order. Meaningful only when `key` is registered.
    pub open spec fn bit_of(self, key: u64) -> int {
        self.type_keys().index_of_first(key).unwrap()
    }

    /// The membership masks, one per entity slot.
    pub closed spec fn entity_masks(self) -> Seq<u128> {
        self.entity_maps@
    }

    /// How many entity slots the directory holds, dead ones included.
    pub open spec fn num_entities(self) -> nat {
        self.entity_masks().len()
    }

    /// The membership mask of entity slot `e`.
    pub open spec fn mask_of(self, e: int) -> u128 {
        self.entity_masks()[e]
    }

    /// A slot is live when some component bit is set in its mask.
    pub open spec fn is_live(self, e: int) -> bool {
        0 <= e < self.num_entities() && self.mask_of(e) != 0
    }

    /// The sparse sets as sequences of optional slots, one per registered
    /// type, in bit order.
    pub closed spec fn slots(self) -> Seq<Seq<Option<C>>> {
        Seq::new(self.sparse_sets@.len(), |t: int| self.sparse_sets@[t]@)
    }

    /// The physical slot of type `key` at entity `e`. Meaningful only when
    /// `key` is registered and `e` is in range.
    pub open spec fn slot_of(self, key: u64, e: int) -> Option<C> {
        self.slots()[self.bit_of(key)][e]
    }

    /// Membership: entity `e` currently has the component type `key`, that
    /// is, the mask bit owned by `key` is set on `e`.
    pub open spec fn has_component(self, e: int, key: u64) -> bool {
        &&& self.is_registered(key)
        &&& 0 <= e < self.num_entities()
        &&& mask_bit(self.mask_of(e), self.bit_of(key) as u128)
    }

    /// Whether a singleton resource is stored under `key`.
    pub closed spec fn has_resource(self, key: u64) -> bool {
        self.resource_keys@.contains(key)
    }

    /// The stored resource for `key`. Meaningful only when present.
    pub closed spec fn resource_of(self, key: u64) -> C {
        self.resource_values@[self.resource_keys@.index_of_first(key).unwrap()]
    }

    /// The result a storage-level component read is specified to produce:
    /// `ComponentNotFound` for a type never registered, `ComponentNotSlotted`
    /// for a registered type whose physical slot at `e` is empty, and the
    /// slot's value otherwise. The membership mask is not consulted.
    pub open spec fn read_slot(self, entity_id: usize, key: u64) -> Result<C, WorldError> {
        if !self.is_registered(key) {
            Err(WorldError::ComponentNotFound)
        } else if self.slot_of(key, entity_id as int) is None {
            Err(WorldError::ComponentNotSlotted)
        } else {
            Ok(self.slot_of(key, entity_id as int).unwrap())
        }
    }

    /// The component storage is untouched: same registered keys (hence same
    /// bit assignment) and same physical slots.
    pub open spec fn same_components(pre: Self, post: Self) -> bool {
        &&& post.type_keys() == pre.type_keys()
        &&& post.slots() == pre.slots()
    }

    /// The resource store is untouched.
    pub open spec fn same_resources(pre: Self, post: Self) -> bool {
        &&& forall|key: u64| #[trigger] post.has_resource(key) == pre.has_resource(key)
        &&& forall|key: u64|
            pre.has_resource(key) ==> #[trigger] post.resource_of(key) == pre.resource_of(key)
    }

    /// Internal consistency of the store.
    ///
    /// Every sparse set is exactly as long as the entity directory; the
    /// registered keys are distinct and no more than the mask width; no mask
    /// has a bit outside the assigned range; and a set mask bit implies the
    /// matching physical slot is populated. Resource keys are distinct and
    /// parallel to their values.
    pub closed spec fn wf(self) -> bool {
        let keys = self.registered_keys@;
        let sets = self.sparse_sets@;
        let masks = self.entity_maps@;
        &&& sets.len() == keys.len()
        &&& keys.len() <= MASK_WIDTH
        &&& forall|i: int, j: int| 0 <= i < j < keys.len() ==> keys[i] != keys[j]
        &&& forall|t: int| 0 <= t < sets.len() ==> (#[trigger] sets[t])@.len() == masks.len()
        &&& forall|e: int, t: u128|
            0 <= e < masks.len() && keys.len() <= t < 128 ==> !#[trigger] mask_bit(masks[e], t)
        &&& forall|e: int, t: int|
            0 <= e < masks.len() && 0 <= t < keys.len() && mask_bit(masks[e], t as u128)
                ==> (#[trigger] sets[t]@[e]) is Some
        &&& self.resource_keys@.len() == self.resource_values@.len()
        &&& forall|i: int, j: int|
            0 <= i < j < self.resource_keys@.len()
                ==> self.resource_keys@[i] != self.resource_keys@[j]
    }

    /// A registered key's bit is in range and looks its key back up.
    pub proof fn lemma_bit_of_registered(self, key: u64)
        requires
            self.wf(),
            self.is_registered(key),
        ensures
            0 <= self.bit_of(key) < self.num_types(),
            self.num_types() <= MASK_WIDTH,
            self.type_keys()[self.bit_of(key)] == key,
    {
        self.type_keys().index_of_first_ensures(key);
    }

    /// The key stored at position `i` has been assigned exactly bit `i`.
    pub proof fn lemma_key_at_bit(self, key: u64, i: int)
        requires
            self.wf(),
            0 <= i < self.num_types(),
            self.type_keys()[i] == key,
        ensures
            self.is_registered(key),
            self.bit_of(key) == i,
    {
        assert(self.type_keys().contains(key));
        self.type_keys().index_of_first_ensures(key);
        let idx = self.bit_of(key);
        if idx < i {
            assert(self.type_keys()[idx] == key);
        } else if idx > i {
            assert(self.type_keys()[i] != key);
        }
    }

    /// Distinct registered types always occupy distinct bit positions.
    pub proof fn lemma_component_bits_distinct(self, key1: u64, key2: u64)
        requires
            self.wf(),
            self.is_registered(key1),
            self.is_registered(key2),
            key1 != key2,
        ensures
            self.bit_of(key1) != self.bit_of(key2),
    {
        self.lemma_bit_of_registered(key1);
        self.lemma_bit_of_registered(key2);
    }

    /// A set membership bit is always backed by a populated physical slot.
    pub proof fn lemma_member_slot_populated(self, e: int, key: u64)
        requires
            self.wf(),
            self.has_component(e, key),
        ensures
            self.slot_of(key, e) is Some,
    {
        self.lemma_bit_of_registered(key);
    }

    /// A fresh, empty world.
    pub fn new() -> (w: Self)
        ensures
            w.wf(),
            w.num_entities() == 0,
            w.num_types() == 0,
            forall|key: u64| !w.has_resource(key),
    {
        World {
            registered_keys: Vec::new(),
            sparse_sets: Vec::new(),
            entity_maps: Vec::new(),
            resource_keys: Vec::new(),
            resource_values: Vec::new(),
        }
    }

    /// The position of `key` in the registration order, if it was ever seen.
    fn find_type(&self, key: u64) -> (r: Option<usize>)
        ensures
            match r {
                Some(t) => self.type_keys().index_of_first(key) == Some(t as int)
                    && t < self.num_types() && self.type_keys()[t as int] == key
                    && self.is_registered(key),
                None => !self.is_registered(key),
            },
    {
        proof {
            self.type_keys().index_of_first_ensures(key);
        }
        let mut t: usize = 0;
        while t < self.registered_keys.len()
            invariant
                t <= self.registered_keys.len(),
                forall|j: int| 0 <= j < t ==> self.type_keys()[j] != key,
            decreases self.registered_keys.len() - t,
        {
            if self.registered_keys[t] == key {
                proof {
                    assert(self.type_keys().contains(key));
                    self.type_keys().index_of_first_ensures(key);
                    let idx = self.type_keys().index_of_first(key).unwrap();
                    if idx < t as int {
                        assert(self.type_keys()[idx] != key);
                    }
                }
                return Some(t);
            }
            t += 1;
        }
        None
    }

    /// Registers `key` if it was never seen: assigns it the next free bit
    /// position and a fresh sparse set sized to the current entity count,
    /// every slot empty. A no-op for an already registered key. Existing
    /// registrations, bit assignments, slots, masks and resources are kept.
    pub fn ensure_component(&mut self, key: u64)
        requires
            old(self).wf(),
            old(self).is_registered(key) || old(self).num_types() < MASK_WIDTH,
        ensures
            final(self).wf(),
            final(self).is_registered(key),
            old(self).is_registered(key) ==> *final(self) == *old(self),
            !old(self).is_registered(key) ==> {
                &&& final(self).type_keys() == old(self).type_keys().push(key)
                &&& final(self).bit_of(key) == old(self).num_types()
                &&& forall|e: int|
                    0 <= e < old(self).num_entities() ==> final(self).slot_of(key, e) is None
            },
            final(self).entity_masks() == old(self).entity_masks(),
            forall|k2: u64|
                #[trigger] final(self).is_registered(k2)
                    <==> (old(self).is_registered(k2) || k2 == key),
            forall|k2: u64|
                old(self).is_registered(k2) ==> #[trigger] final(self).bit_of(k2) == old(
                    self,
                ).bit_of(k2),
            forall|k2: u64, e: int|
                old(self).is_registered(k2) && 0 <= e < old(self).num_entities()
                    ==> #[trigger] final(self).slot_of(k2, e) == old(self).slot_of(k2, e),
            Self::same_resources(*old(self), *final(self)),
    {
        let ghost pre = *self;
        match self.find_type(key) {
            Some(_) => {},
            None => {
                let entity_count = self.entity_maps.len();
                let mut fresh: Vec<Option<C>> = Vec::new();
                let mut i: usize = 0;
                while i < entity_count
                    invariant
                        fresh@.len() == i,
                        i <= entity_count,
                        forall|e: int| 0 <= e < i ==> fresh@[e] is None,
                    decreases entity_count - i,
                {
                    fresh.push(None);
                    i += 1;
                }
                self.sparse_sets.push(fresh);
                self.registered_keys.push(key);
                proof {
                    let post = *self;
                    assert(post.type_keys() == pre.type_keys().push(key));
                    // The appended key is new, so the prefix search still
                    // misses everything before the last position.
                    assert forall|j: int| 0 <= j < pre.num_types() implies post.type_keys()[j]
                        != key by {
                        if post.type_keys()[j] == key {
                            assert(pre.type_keys()[j] == key);
                            assert(pre.type_keys().contains(key));
                        }
                    }
                    post.lemma_key_at_bit(key, pre.num_types() as int);
                    // Registration is preserved and extended by exactly `key`.
                    assert forall|k2: u64| #[trigger]
                        post.is_registered(k2) <==> (pre.is_registered(k2) || k2 == key) by {
                        if pre.is_registered(k2) {
                            let j = choose|j: int|
                                0 <= j < pre.type_keys().len() && pre.type_keys()[j] == k2;
                            assert(post.type_keys()[j] == k2);
                        }
                        if post.is_registered(k2) && k2 != key {
                            let j = choose|j: int|
                                0 <= j < post.type_keys().len() && post.type_keys()[j] == k2;
                            assert(j < pre.type_keys().len());
                            assert(pre.type_keys()[j] == k2);
                        }
                    }
                    // Bits and slots of previously registered keys are kept.
                    assert forall|k2: u64| pre.is_registered(k2) implies #[trigger] post.bit_of(k2)
                        == pre.bit_of(k2) by {
                        pre.lemma_bit_of_registered(k2);
                        post.lemma_key_at_bit(k2, pre.bit_of(k2));
                    }
                    assert forall|k2: u64, e: int|
                        pre.is_registered(k2) && 0 <= e < pre.num_entities() implies #[trigger]
                    post.slot_of(k2, e) == pre.slot_of(k2, e) by {
                        pre.lemma_bit_of_registered(k2);
                        assert(post.slots()[pre.bit_of(k2)] == pre.slots()[pre.bit_of(k2)]);
                    }
                    assert(post.wf()) by {
                        assert forall|e: int, t: int|
                            0 <= e < post.entity_maps@.len() && 0 <= t < post.registered_keys@.len()
                                && mask_bit(post.entity_maps@[e], t as u128) implies (
                        #[trigger] post.sparse_sets@[t]@[e]) is Some by {
                            if t < pre.registered_keys@.len() {
                                assert(pre.sparse_sets@[t]@[e] is Some);
                            } else {
                                // No mask may carry the newly assigned bit yet.
                                assert(!mask_bit(pre.entity_maps@[e], t as u128));
                            }
                        }
                    }
                }
            },
        }
    }

    /// Attaches `component` under type `key` to the given entity: registers
    /// the key if unseen, writes the value into that type's slot, and sets
    /// the type's bit in the entity's mask. Fails with `EntityNotFound`, with
    /// the registration of `key` retained but nothing else changed, when the
    /// entity index has no directory slot.
    pub fn add_component(&mut self, entity_id: usize, key: u64, component: C) -> (r: Result<
        (),
        WorldError,
    >)
        requires
            old(self).wf(),
            old(self).is_registered(key) || old(self).num_types() < MASK_WIDTH,
        ensures
            final(self).wf(),
            final(self).is_registered(key),
            final(self).num_entities() == old(self).num_entities(),
            r is Ok <==> (entity_id as int) < old(self).num_entities(),
            r is Err ==> r == Err::<(), WorldError>(WorldError::EntityNotFound),
            forall|k2: u64|
                #[trigger] final(self).is_registered(k2)
                    <==> (old(self).is_registered(k2) || k2 == key),
            forall|k2: u64|
                old(self).is_registered(k2) ==> #[trigger] final(self).bit_of(k2) == old(
                    self,
                ).bit_of(k2),
            old(self).is_registered(key) ==> final(self).type_keys() == old(self).type_keys(),
            !old(self).is_registered(key) ==> final(self).type_keys() == old(
                self,
            ).type_keys().push(key) && final(self).bit_of(key) == old(self).num_types(),
            Self::same_resources(*old(self), *final(self)),
            forall|e2: int|
                0 <= e2 < old(self).num_entities() && e2 != entity_id as int
                    ==> #[trigger] final(self).mask_of(e2) == old(self).mask_of(e2),
            r is Err ==> final(self).entity_masks() == old(self).entity_masks(),
            r is Ok ==> final(self).mask_of(entity_id as int) == (old(self).mask_of(
                entity_id as int,
            ) | (1u128 << final(self).bit_of(key) as u128)),
            r is Ok ==> final(self).has_component(entity_id as int, key),
            r is Ok ==> final(self).slot_of(key, entity_id as int) == Some(component),
            forall|k2: u64, e2: int|
                old(self).is_registered(k2) && k2 != key && 0 <= e2 < old(self).num_entities()
                    ==> #[trigger] final(self).slot_of(k2, e2) == old(self).slot_of(k2, e2),
            forall|e2: int|
                old(self).is_registered(key) && 0 <= e2 < old(self).num_entities() && !(r is Ok
                    && e2 == entity_id as int) ==> #[trigger] final(self).slot_of(key, e2) == old(
                    self,
                ).slot_of(key, e2),
            forall|e2: int|
                !old(self).is_registered(key) && 0 <= e2 < old(self).num_entities() && !(r is Ok
                    && e2 == entity_id as int) ==> #[trigger] final(self).slot_of(key, e2) is None,
            forall|e2: int, k2: u64|
                !(e2 == entity_id as int && k2 == key) && old(self).is_registered(k2) ==> (
                #[trigger] final(self).has_component(e2, k2) <==> old(self).has_component(e2, k2)),
    {
        let ghost pre = *self;
        self.ensure_component(key);
        let ghost mid = *self;
        let t = self.find_type(key).unwrap();
        proof {
            mid.lemma_bit_of_registered(key);
            assert(mid.bit_of(key) == t as int);
        }
        if entity_id >= self.entity_maps.len() {
            proof {
                assert forall|e2: int, k2: u64|
                    !(e2 == entity_id as int && k2 == key) && pre.is_registered(k2) implies (
                #[trigger] mid.has_component(e2, k2) <==> pre.has_component(e2, k2)) by {
                    pre.lemma_bit_of_registered(k2);
                }
            }
            return Err(WorldError::EntityNotFound);
        }
        self.sparse_sets[t][entity_id] = Some(component);
        let mask = self.entity_maps[entity_id];
        self.entity_maps[entity_id] = mask | (1u128 << t);
        proof {
            let post = *self;
            let e = entity_id as int;
            let b = t as int;
            assert(post.type_keys() == mid.type_keys());
            assert(post.bit_of(key) == b);
            assert forall|k2: u64| #[trigger]
                post.is_registered(k2) <==> (pre.is_registered(k2) || k2 == key) by {
                assert(post.is_registered(k2) == mid.is_registered(k2));
            }
            assert forall|k2: u64| pre.is_registered(k2) implies #[trigger] post.bit_of(k2)
                == pre.bit_of(k2) by {
                assert(post.bit_of(k2) == mid.bit_of(k2));
                assert(mid.bit_of(k2) == pre.bit_of(k2));
            }
            // How the physical tables changed.
            assert(post.entity_maps@ == mid.entity_maps@.update(e, mask | (1u128 << t)));
            assert(post.sparse_sets@[b]@ == mid.sparse_sets@[b]@.update(e, Some(component)));
            assert forall|t2: int|
                0 <= t2 < post.sparse_sets@.len() && t2 != b implies post.sparse_sets@[t2]
                == mid.sparse_sets@[t2] by {}
            assert forall|t2: int| 0 <= t2 < post.slots().len() && t2 != b implies post.slots()[t2]
                == mid.slots()[t2] by {}
            // The attached bit is set and nothing else moved.
            lemma_set_bit(mask, t as u128, t as u128);
            assert(post.has_component(e, key));
            assert(post.slot_of(key, e) == Some(component));
            // Other types keep their bits, slots, and membership.
            assert forall|k2: u64, e2: int|
                mid.is_registered(k2) && k2 != key && 0 <= e2 < mid.num_entities() implies
            #[trigger] post.slot_of(k2, e2) == mid.slot_of(k2, e2) by {
                mid.lemma_bit_of_registered(k2);
                mid.lemma_component_bits_distinct(k2, key);
            }
            assert forall|e2: int|
                0 <= e2 < mid.num_entities() && e2 != e implies #[trigger] post.slot_of(key, e2)
                == mid.slot_of(key, e2) by {}
            assert forall|e2: int, k2: u64|
                !(e2 == e && k2 == key) && mid.is_registered(k2) implies (#[trigger]
            post.has_component(e2, k2) <==> mid.has_component(e2, k2)) by {
                if 0 <= e2 < mid.num_entities() {
                    mid.lemma_bit_of_registered(k2);
                    if e2 == e {
                        mid.lemma_component_bits_distinct(k2, key);
                        lemma_set_bit(mask, t as u128, mid.bit_of(k2) as u128);
                    }
                }
            }
            // Membership relative to the state before registration.
            assert forall|e2: int, k2: u64|
                !(e2 == e && k2 == key) && pre.is_registered(k2) implies (#[trigger]
            post.has_component(e2, k2) <==> pre.has_component(e2, k2)) by {
                pre.lemma_bit_of_registered(k2);
                assert(mid.has_component(e2, k2) <==> pre.has_component(e2, k2));
            }
            assert(Self::same_resources(pre, post)) by {
                assert forall|k2: u64| #[trigger]
                    post.has_resource(k2) == pre.has_resource(k2) by {
                    assert(post.has_resource(k2) == mid.has_resource(k2));
                }
                assert forall|k2: u64| pre.has_resource(k2) implies #[trigger] post.resource_of(k2)
                    == pre.resource_of(k2) by {
                    assert(post.resource_of(k2) == mid.resource_of(k2));
                    assert(mid.resource_of(k2) == pre.resource_of(k2));
                }
            }
            assert(post.wf()) by {
                assert forall|e2: int, t2: u128|
                    0 <= e2 < post.entity_maps@.len() && post.registered_keys@.len() <= t2
                        < 128 implies !#[trigger] mask_bit(post.entity_maps@[e2], t2) by {
                    if e2 == e {
                        lemma_set_bit(mask, t as u128, t2);
                    }
                }
                assert forall|e2: int, t2: int|
                    0 <= e2 < post.entity_maps@.len() && 0 <= t2 < post.registered_keys@.len()
                        && mask_bit(post.entity_maps@[e2], t2 as u128) implies (
                #[trigger] post.sparse_sets@[t2]@[e2]) is Some by {
                    if e2 == e {
                        lemma_set_bit(mask, t as u128, t2 as u128);
                        if t2 != b {
                            assert(mask_bit(mid.entity_maps@[e2], t2 as u128));
                        }
                    }
                }
            }
        }
        Ok(())
    }

    /// Whether every bit of `mask` is set in the given entity's membership
    /// mask.
    pub fn has_bit_mask(&self, entity_id: usize, mask: u128) -> (r: bool)
        requires
            entity_id < self.num_entities(),
        ensures
            r == crate::masks::covers(self.mask_of(entity_id as int), mask),
    {
        (self.entity_maps[entity_id] & mask) == mask
    }

    /// Clears the mask bit of type `key` on the given entity, if the key is
    /// registered and the bit was set; otherwise changes nothing. The
    /// physical slot is not vacated: it may keep stale data, which the mask
    /// marks as semantically absent.
    pub fn delete_component(&mut self, entity_id: usize, key: u64)
        requires
            old(self).wf(),
            old(self).is_registered(key) ==> entity_id < old(self).num_entities(),
        ensures
            final(self).wf(),
            final(self).num_entities() == old(self).num_entities(),
            !final(self).has_component(entity_id as int, key),
            old(self).has_component(entity_id as int, key) ==> final(self).mask_of(
                entity_id as int,
            ) == (old(self).mask_of(entity_id as int) ^ (1u128 << old(self).bit_of(
                key,
            ) as u128)),
            !old(self).has_component(entity_id as int, key) ==> *final(self) == *old(self),
            forall|e2: int|
                0 <= e2 < old(self).num_entities() && e2 != entity_id as int
                    ==> #[trigger] final(self).mask_of(e2) == old(self).mask_of(e2),
            forall|e2: int, k2: u64|
                !(e2 == entity_id as int && k2 == key) ==> (#[trigger] final(self).has_component(
                    e2,
                    k2,
                ) <==> old(self).has_component(e2, k2)),
            Self::same_components(*old(self), *final(self)),
            Self::same_resources(*old(self), *final(self)),
    {
        let ghost pre = *self;
        if let Some(t) = self.find_type(key) {
            proof {
                pre.lemma_bit_of_registered(key);
            }
            let bit = 1u128 << t;
            if self.has_bit_mask(entity_id, bit) {
                let cur = self.entity_maps[entity_id];
                self.entity_maps[entity_id] = cur ^ bit;
                proof {
                    let post = *self;
                    let e = entity_id as int;
                    lemma_covers_single_bit(cur, t as u128);
                    assert(mask_bit(cur, t as u128));
                    lemma_clear_bit(cur, t as u128, t as u128);
                    assert(!post.has_component(e, key));
                    assert forall|e2: int, k2: u64|
                        !(e2 == e && k2 == key) implies (#[trigger] post.has_component(e2, k2)
                        <==> pre.has_component(e2, k2)) by {
                        if e2 == e && pre.is_registered(k2) {
                            pre.lemma_bit_of_registered(k2);
                            pre.lemma_component_bits_distinct(k2, key);
                            lemma_clear_bit(cur, t as u128, pre.bit_of(k2) as u128);
                        }
                    }
                    assert(post.wf()) by {
                        assert forall|e2: int, t2: u128|
                            0 <= e2 < post.entity_maps@.len() && post.registered_keys@.len() <= t2
                                < 128 implies !#[trigger] mask_bit(post.entity_maps@[e2], t2) by {
                            if e2 == e {
                                lemma_clear_bit(cur, t as u128, t2);
                            }
                        }
                        assert forall|e2: int, t2: int|
                            0 <= e2 < post.entity_maps@.len() && 0 <= t2
                                < post.registered_keys@.len() && mask_bit(
                                post.entity_maps@[e2],
                                t2 as u128,
                            ) implies (#[trigger] post.sparse_sets@[t2]@[e2]) is Some by {
                            if e2 == e {
                                lemma_clear_bit(cur, t as u128, t2 as u128);
                                assert(mask_bit(cur, t2 as u128));
                            }
                        }
                    }
                }
            } else {
                proof {
                    lemma_covers_single_bit(self.mask_of(entity_id as int), t as u128);
                }
            }
        }
    }

    /// Frees the entity's directory slot by zeroing its mask; every component
    /// membership is dropped at once and the slot becomes eligible for reuse.
    /// Physical sparse-set slots are retained, not compacted.
    pub fn delete_entity(&mut self, entity_id: usize)
        requires
            old(self).wf(),
            entity_id < old(self).num_entities(),
        ensures
            final(self).wf(),
            final(self).num_entities() == old(self).num_entities(),
            final(self).entity_masks() == old(self).entity_masks().update(entity_id as int, 0u128),
            !final(self).is_live(entity_id as int),
            forall|key: u64| !#[trigger] final(self).has_component(entity_id as int, key),
            forall|e2: int|
                0 <= e2 < old(self).num_entities() && e2 != entity_id as int
                    ==> #[trigger] final(self).mask_of(e2) == old(self).mask_of(e2),
            forall|e2: int, k2: u64|
                e2 != entity_id as int ==> (#[trigger] final(self).has_component(e2, k2) <==> old(
                    self,
                ).has_component(e2, k2)),
            Self::same_components(*old(self), *final(self)),
            Self::same_resources(*old(self), *final(self)),
    {
        self.entity_maps[entity_id] = 0;
        proof {
            let post = *self;
            assert forall|key: u64| !#[trigger] post.has_component(entity_id as int, key) by {
                lemma_zero_mask_no_bits(post.bit_of(key) as u128);
            }
            assert forall|e2: int, t2: u128|
                0 <= e2 < post.entity_maps@.len() && post.registered_keys@.len() <= t2
                    < 128 implies !#[trigger] mask_bit(post.entity_maps@[e2], t2) by {
                if e2 == entity_id as int {
                    lemma_zero_mask_no_bits(t2);
                }
            }
            assert forall|e2: int, t2: int|
                0 <= e2 < post.entity_maps@.len() && 0 <= t2 < post.registered_keys@.len()
                    && mask_bit(post.entity_maps@[e2], t2 as u128) implies (
            #[trigger] post.sparse_sets@[t2]@[e2]) is Some by {
                if e2 == entity_id as int {
                    lemma_zero_mask_no_bits(t2 as u128);
                }
            }
        }
    }

    /// Reads the physical slot of type `key` at the given entity, returning a
    /// reference to the stored value, `ComponentNotFound` for an unregistered
    /// type, or `ComponentNotSlotted` for an empty slot. The membership mask
    /// is not consulted: a slot left stale by a bit-clearing delete is still
    /// read back.
    pub fn get_component(&self, entity_id: usize, key: u64) -> (r: Result<&C, WorldError>)
        requires
            self.wf(),
            self.is_registered(key) ==> entity_id < self.num_entities(),
        ensures
            match r {
                Ok(c) => self.read_slot(entity_id, key) == Ok::<C, WorldError>(*c),
                Err(err) => self.read_slot(entity_id, key) == Err::<C, WorldError>(err),
            },
    {
        match self.find_type(key) {
            None => Err(WorldError::ComponentNotFound),
            Some(t) => {
                proof {
                    self.lemma_bit_of_registered(key);
                }
                match &self.sparse_sets[t][entity_id] {
                    None => Err(WorldError::ComponentNotSlotted),
                    Some(c) => Ok(c),
                }
            },
        }
    }

    /// The lowest dead slot's index, or the directory length when every slot
    /// is live.
    fn find_free_slot(&self) -> (entity_id: usize)
        ensures
            entity_id as int <= self.num_entities(),
            forall|j: int| 0 <= j < entity_id as int ==> #[trigger] self.mask_of(j) != 0,
            (entity_id as int) < self.num_entities() ==> self.mask_of(entity_id as int) == 0,
    {
        let mut i: usize = 0;
        while i < self.entity_maps.len()
            invariant
                i <= self.entity_maps@.len(),
                forall|j: int| 0 <= j < i ==> #[trigger] self.mask_of(j) != 0,
            decreases self.entity_maps@.len() - i,
        {
            if self.entity_maps[i] == 0 {
                return i;
            }
            i += 1;
        }
        i
    }

    /// Claims a directory slot for a new entity: the lowest dead slot, or a
    /// freshly appended one, growing every sparse set in lockstep with the
    /// directory. The chosen slot's mask is zero; everything else is kept.
    fn allocate(&mut self) -> (entity_id: usize)
        requires
            old(self).wf(),
        ensures
            final(self).wf(),
            entity_id as int <= old(self).num_entities(),
            forall|j: int| 0 <= j < entity_id as int ==> #[trigger] old(self).mask_of(j) != 0,
            (entity_id as int) < old(self).num_entities() ==> old(self).mask_of(entity_id as int)
                == 0,
            final(self).num_entities() == if (entity_id as int) < old(self).num_entities() {
                old(self).num_entities()
            } else {
                old(self).num_entities() + 1
            },
            (entity_id as int) < final(self).num_entities(),
            final(self).mask_of(entity_id as int) == 0,
            final(self).type_keys() == old(self).type_keys(),
            forall|e2: int|
                0 <= e2 < old(self).num_entities() ==> #[trigger] final(self).mask_of(e2) == old(
                    self,
                ).mask_of(e2),
            forall|k2: u64, e2: int|
                old(self).is_registered(k2) && 0 <= e2 < old(self).num_entities()
                    ==> #[trigger] final(self).slot_of(k2, e2) == old(self).slot_of(k2, e2),
            entity_id as int == old(self).num_entities() ==> forall|k2: u64|
                old(self).is_registered(k2) ==> #[trigger] final(self).slot_of(
                    k2,
                    entity_id as int,
                ) is None,
            Self::same_resources(*old(self), *final(self)),
    {
        let ghost pre = *self;
        let entity_id = self.find_free_slot();
        if entity_id == self.entity_maps.len() {
            // No dead slot: append one, growing every sparse set in lockstep.
            let sets = self.sparse_sets.len();
            let mut t: usize = 0;
            while t < sets
                invariant
                    t <= sets,
                    sets == self.sparse_sets@.len(),
                    self.registered_keys == pre.registered_keys,
                    self.entity_maps == pre.entity_maps,
                    self.resource_keys == pre.resource_keys,
                    self.resource_values == pre.resource_values,
                    sets == pre.sparse_sets@.len(),
                    forall|t2: int|
                        0 <= t2 < t ==> (#[trigger] self.sparse_sets@[t2])@
                            == pre.sparse_sets@[t2]@.push(None),
                    forall|t2: int|
                        t <= t2 < sets ==> #[trigger] self.sparse_sets@[t2]
                            == pre.sparse_sets@[t2],
                decreases sets - t,
            {
                self.sparse_sets[t].push(None);
                t += 1;
            }
            self.entity_maps.push(0);
            proof {
                let mid = *self;
                assert(mid.type_keys() == pre.type_keys());
                assert(mid.wf()) by {
                    assert forall|e2: int, t2: u128|
                        0 <= e2 < mid.entity_maps@.len() && mid.registered_keys@.len() <= t2
                            < 128 implies !#[trigger] mask_bit(mid.entity_maps@[e2], t2) by {
                        if e2 == entity_id as int {
                            lemma_zero_mask_no_bits(t2);
                        }
                    }
                    assert forall|e2: int, t2: int|
                        0 <= e2 < mid.entity_maps@.len() && 0 <= t2 < mid.registered_keys@.len()
                            && mask_bit(mid.entity_maps@[e2], t2 as u128) implies (
                    #[trigger] mid.sparse_sets@[t2]@[e2]) is Some by {
                        if e2 == entity_id as int {
                            lemma_zero_mask_no_bits(t2 as u128);
                        } else {
                            assert(pre.sparse_sets@[t2]@[e2] is Some);
                        }
                    }
                }
                assert forall|k2: u64, e2: int|
                    pre.is_registered(k2) && 0 <= e2 < pre.num_entities() implies #[trigger]
                mid.slot_of(k2, e2) == pre.slot_of(k2, e2) by {
                    pre.lemma_bit_of_registered(k2);
                }
                assert forall|k2: u64| pre.is_registered(k2) implies #[trigger] mid.slot_of(
                    k2,
                    entity_id as int,
                ) is None by {
                    pre.lemma_bit_of_registered(k2);
                }
            }
        }
        entity_id
    }

    /// Spawns an entity carrying one initial component: reuses the lowest
    /// dead directory slot, or appends a new slot, growing every sparse set
    /// in lockstep; then attaches the component. Returns the entity's index.
    pub fn spawn_entity(&mut self, key: u64, component: C) -> (entity_id: usize)
        requires
            old(self).wf(),
            old(self).is_registered(key) || old(self).num_types() < MASK_WIDTH,
        ensures
            final(self).wf(),
            entity_id as int <= old(self).num_entities(),
            forall|j: int| 0 <= j < entity_id as int ==> #[trigger] old(self).mask_of(j) != 0,
            (entity_id as int) < old(self).num_entities() ==> old(self).mask_of(entity_id as int)
                == 0,
            final(self).num_entities() == if (entity_id as int) < old(self).num_entities() {
                old(self).num_entities()
            } else {
                old(self).num_entities() + 1
            },
            final(self).is_live(entity_id as int),
            final(self).is_registered(key),
            final(self).has_component(entity_id as int, key),
            final(self).slot_of(key, entity_id as int) == Some(component),
            final(self).mask_of(entity_id as int) == (1u128 << final(self).bit_of(key) as u128),
            forall|k2: u64|
                #[trigger] final(self).is_registered(k2)
                    <==> (old(self).is_registered(k2) || k2 == key),
            forall|k2: u64|
                old(self).is_registered(k2) ==> #[trigger] final(self).bit_of(k2) == old(
                    self,
                ).bit_of(k2),
            old(self).is_registered(key) ==> final(self).type_keys() == old(self).type_keys(),
            !old(self).is_registered(key) ==> final(self).type_keys() == old(
                self,
            ).type_keys().push(key) && final(self).bit_of(key) == old(self).num_types(),
            forall|e2: int|
                0 <= e2 < old(self).num_entities() && e2 != entity_id as int
                    ==> #[trigger] final(self).mask_of(e2) == old(self).mask_of(e2),
            forall|k2: u64, e2: int|
                old(self).is_registered(k2) && k2 != key && 0 <= e2 < old(self).num_entities()
                    ==> #[trigger] final(self).slot_of(k2, e2) == old(self).slot_of(k2, e2),
            forall|e2: int|
                old(self).is_registered(key) && 0 <= e2 < old(self).num_entities() && e2
                    != entity_id as int ==> #[trigger] final(self).slot_of(key, e2) == old(
                    self,
                ).slot_of(key, e2),
            forall|e2: int, k2: u64|
                0 <= e2 < old(self).num_entities() && e2 != entity_id as int && old(
                    self,
                ).is_registered(k2) ==> (#[trigger] final(self).has_component(e2, k2) <==> old(
                    self,
                ).has_component(e2, k2)),
            Self::same_resources(*old(self), *final(self)),
    {
        let ghost pre = *self;
        let entity_id = self.allocate();
        let ghost mid = *self;
        let r = self.add_component(entity_id, key, component);
        proof {
            let post = *self;
            let e = entity_id as int;
            assert(r is Ok);
            post.lemma_bit_of_registered(key);
            lemma_set_bit_in_zero(0u128, post.bit_of(key) as u128);
            lemma_set_bit_nonzero(0u128, post.bit_of(key) as u128);
            assert(post.mask_of(e) == 1u128 << post.bit_of(key) as u128);
            // Everything older than the spawned slot is untouched.
            assert forall|k2: u64, e2: int|
                pre.is_registered(k2) && k2 != key && 0 <= e2 < pre.num_entities() implies
            #[trigger] post.slot_of(k2, e2) == pre.slot_of(k2, e2) by {
                assert(mid.slot_of(k2, e2) == pre.slot_of(k2, e2));
            }
            assert forall|e2: int|
                pre.is_registered(key) && 0 <= e2 < pre.num_entities() && e2 != e implies
            #[trigger] post.slot_of(key, e2) == pre.slot_of(key, e2) by {
                assert(mid.slot_of(key, e2) == pre.slot_of(key, e2));
            }
            assert forall|e2: int, k2: u64|
                0 <= e2 < pre.num_entities() && e2 != e && pre.is_registered(k2) implies (
            #[trigger] post.has_component(e2, k2) <==> pre.has_component(e2, k2)) by {
                pre.lemma_bit_of_registered(k2);
                assert(mid.has_component(e2, k2) <==> pre.has_component(e2, k2));
                assert(post.has_component(e2, k2) <==> mid.has_component(e2, k2));
            }
        }
        entity_id
    }

    /// Whether one of the first `upto` listed components carries `key`.
    pub open spec fn listed_key(components: Seq<(u64, C)>, upto: int, key: u64) -> bool {
        exists|j: int| 0 <= j < upto && (#[trigger] components[j]).0 == key
    }

    /// Whether position `idx` is the last mention of its key among the first
    /// `upto` listed components.
    pub open spec fn last_mention(components: Seq<(u64, C)>, upto: int, idx: int) -> bool {
        forall|j: int| idx < j < upto ==> (#[trigger] components[j]).0 != components[idx].0
    }

    /// Taking one more component into view adds exactly its key.
    proof fn lemma_listed_key_extend(components: Seq<(u64, C)>, upto: int, key: u64)
        requires
            0 <= upto < components.len(),
        ensures
            Self::listed_key(components, upto + 1, key) <==> (Self::listed_key(
                components,
                upto,
                key,
            ) || components[upto].0 == key),
    {
        if Self::listed_key(components, upto + 1, key) {
            let j = choose|j: int| 0 <= j < upto + 1 && (#[trigger] components[j]).0 == key;
            if j < upto {
                assert(Self::listed_key(components, upto, key));
            }
        }
        if components[upto].0 == key {
            assert(0 <= upto < upto + 1 && components[upto].0 == key);
        }
    }

    /// Spawns an entity from a sequence of components: claims a slot exactly
    /// as [`World::spawn_entity`] does (lowest dead slot first), then
    /// attaches each listed component in order, so a key listed twice keeps
    /// its last value. With an empty sequence the claimed slot stays dead.
    /// Returns the entity's index.
    pub fn spawn(&mut self, components: Vec<(u64, C)>) -> (entity_id: usize)
        requires
            old(self).wf(),
            old(self).num_types() + components@.len() <= MASK_WIDTH,
        ensures
            final(self).wf(),
            entity_id as int <= old(self).num_entities(),
            forall|j: int| 0 <= j < entity_id as int ==> #[trigger] old(self).mask_of(j) != 0,
            (entity_id as int) < old(self).num_entities() ==> old(self).mask_of(entity_id as int)
                == 0,
            final(self).num_entities() == if (entity_id as int) < old(self).num_entities() {
                old(self).num_entities()
            } else {
                old(self).num_entities() + 1
            },
            (entity_id as int) < final(self).num_entities(),
            forall|k2: u64|
                #[trigger] final(self).has_component(entity_id as int, k2) <==> Self::listed_key(
                    components@,
                    components@.len() as int,
                    k2,
                ),
            forall|idx: int|
                0 <= idx < components@.len() && Self::last_mention(
                    components@,
                    components@.len() as int,
                    idx,
                ) ==> #[trigger] final(self).slot_of(components@[idx].0, entity_id as int) == Some(
                    components@[idx].1,
                ),
            forall|k2: u64|
                #[trigger] final(self).is_registered(k2) <==> (old(self).is_registered(k2)
                    || Self::listed_key(components@, components@.len() as int, k2)),
            forall|k2: u64|
                old(self).is_registered(k2) ==> #[trigger] final(self).bit_of(k2) == old(
                    self,
                ).bit_of(k2),
            forall|e2: int|
                0 <= e2 < old(self).num_entities() && e2 != entity_id as int
                    ==> #[trigger] final(self).mask_of(e2) == old(self).mask_of(e2),
            forall|e2: int, k2: u64|
                0 <= e2 < old(self).num_entities() && e2 != entity_id as int && old(
                    self,
                ).is_registered(k2) ==> (#[trigger] final(self).has_component(e2, k2) <==> old(
                    self,
                ).has_component(e2, k2)),
            Self::same_resources(*old(self), *final(self)),
    {
        let ghost pre = *self;
        let entity_id = self.allocate();
        let ghost alloc = *self;
        proof {
            // The claimed slot is dead, so it has no membership at all, and
            // every other slot still looks exactly as before.
            assert forall|k2: u64| !#[trigger] alloc.has_component(entity_id as int, k2) by {
                lemma_zero_mask_no_bits(alloc.bit_of(k2) as u128);
            }
            assert forall|e2: int, k2: u64|
                0 <= e2 < pre.num_entities() && e2 != entity_id as int && pre.is_registered(
                    k2,
                ) implies (#[trigger] alloc.has_component(e2, k2) <==> pre.has_component(
                e2,
                k2,
            )) by {
                pre.lemma_bit_of_registered(k2);
            }
        }
        let mut rest = components;
        let ghost all = rest@;
        let mut i: usize = 0;
        while rest.len() > 0
            invariant
                self.wf(),
                i + rest@.len() == all.len(),
                rest@ == all.skip(i as int),
                pre.num_types() + all.len() <= MASK_WIDTH,
                (entity_id as int) < self.num_entities(),
                self.num_entities() == alloc.num_entities(),
                pre.num_entities() <= alloc.num_entities(),
                self.num_types() <= pre.num_types() + i,
                forall|k2: u64|
                    #[trigger] self.has_component(entity_id as int, k2) <==> Self::listed_key(
                        all,
                        i as int,
                        k2,
                    ),
                forall|idx: int|
                    0 <= idx < i && Self::last_mention(all, i as int, idx)
                        ==> #[trigger] self.slot_of(all[idx].0, entity_id as int) == Some(
                        all[idx].1,
                    ),
                forall|k2: u64|
                    #[trigger] self.is_registered(k2) <==> (pre.is_registered(k2)
                        || Self::listed_key(all, i as int, k2)),
                forall|k2: u64|
                    pre.is_registered(k2) ==> #[trigger] self.bit_of(k2) == pre.bit_of(k2),
                forall|e2: int|
                    0 <= e2 < pre.num_entities() && e2 != entity_id as int
                        ==> #[trigger] self.mask_of(e2) == pre.mask_of(e2),
                forall|e2: int, k2: u64|
                    0 <= e2 < pre.num_entities() && e2 != entity_id as int && pre.is_registered(
                        k2,
                    ) ==> (#[trigger] self.has_component(e2, k2) <==> pre.has_component(e2, k2)),
                Self::same_resources(pre, *self),
            decreases rest@.len(),
        {
            let ghost before = *self;
            let (key, value) = rest.remove(0);
            proof {
                assert(all[i as int] == (key, value));
                assert(rest@ =~= all.skip(i + 1));
            }
            let r = self.add_component(entity_id, key, value);
            proof {
                let post = *self;
                assert(r is Ok);
                // Membership and registration on the spawned slot grow by
                // exactly `key`.
                assert forall|k2: u64| #[trigger]
                    post.has_component(entity_id as int, k2) <==> Self::listed_key(
                    all,
                    i + 1,
                    k2,
                ) by {
                    Self::lemma_listed_key_extend(all, i as int, k2);
                    if k2 != key && before.is_registered(k2) {
                        assert(post.has_component(entity_id as int, k2)
                            <==> before.has_component(entity_id as int, k2));
                    }
                }
                assert forall|k2: u64| #[trigger]
                    post.is_registered(k2) <==> (pre.is_registered(k2) || Self::listed_key(
                    all,
                    i + 1,
                    k2,
                )) by {
                    Self::lemma_listed_key_extend(all, i as int, k2);
                }
                // Earlier keys without a later duplicate keep their values.
                assert forall|idx: int|
                    0 <= idx < i + 1 && Self::last_mention(all, i + 1, idx) implies #[trigger]
                post.slot_of(all[idx].0, entity_id as int) == Some(all[idx].1) by {
                    if idx < i {
                        assert(all[idx].0 != key);
                        assert(Self::last_mention(all, i as int, idx));
                        assert(before.is_registered(all[idx].0)) by {
                            assert(0 <= idx < i && all[idx].0 == all[idx].0);
                            assert(Self::listed_key(all, i as int, all[idx].0));
                        }
                        assert(before.slot_of(all[idx].0, entity_id as int) == Some(all[idx].1));
                    }
                }
                // Everything away from the spawned slot stays as it was.
                assert forall|e2: int|
                    0 <= e2 < pre.num_entities() && e2 != entity_id as int implies #[trigger]
                post.mask_of(e2) == pre.mask_of(e2) by {
                    assert(post.mask_of(e2) == before.mask_of(e2));
                }
                assert forall|e2: int, k2: u64|
                    0 <= e2 < pre.num_entities() && e2 != entity_id as int && pre.is_registered(
                        k2,
                    ) implies (#[trigger] post.has_component(e2, k2) <==> pre.has_component(
                    e2,
                    k2,
                )) by {
                    assert(before.is_registered(k2));
                    assert(post.has_component(e2, k2) <==> before.has_component(e2, k2));
                }
                assert(Self::same_resources(pre, post)) by {
                    assert forall|k2: u64| #[trigger]
                        post.has_resource(k2) == pre.has_resource(k2) by {
                        assert(post.has_resource(k2) == before.has_resource(k2));
                    }
                    assert forall|k2: u64| pre.has_resource(k2) implies #[trigger]
                    post.resource_of(k2) == pre.resource_of(k2) by {
                        assert(post.resource_of(k2) == before.resource_of(k2));
                        assert(before.resource_of(k2) == pre.resource_of(k2));
                    }
                }
            }
            i += 1;
        }
        proof {
            assert(all.skip(i as int).len() == 0);
            assert(i == all.len());
        }
        entity_id
    }
}

impl<C> World<C> {
    /// Position facts of a stored resource key: first occurrence, in range.
    proof fn lemma_resource_index(self, key: u64)
        requires
            self.wf(),
            self.has_resource(key),
        ensures
            ({
                let i = self.resource_keys@.index_of_first(key).unwrap();
                &&& 0 <= i < self.resource_keys@.len()
                &&& self.resource_keys@[i] == key
                &&& forall|j: int| 0 <= j < i ==> self.resource_keys@[j] != key
            }),
    {
        self.resource_keys@.index_of_first_ensures(key);
    }

    /// A key found at position `i` of the resource table is the stored one.
    proof fn lemma_resource_at(self, key: u64, i: int)
        requires
            self.wf(),
            0 <= i < self.resource_keys@.len(),
            self.resource_keys@[i] == key,
        ensures
            self.has_resource(key),
            self.resource_keys@.index_of_first(key) == Some(i),
            self.resource_of(key) == self.resource_values@[i],
    {
        assert(self.resource_keys@.contains(key));
        self.resource_keys@.index_of_first_ensures(key);
        let idx = self.resource_keys@.index_of_first(key).unwrap();
        if idx < i {
            assert(self.resource_keys@[idx] == key);
        } else if idx > i {
            assert(self.resource_keys@[i] != key);
        }
    }

    /// The position of the resource stored under `key`, if any.
    fn find_resource(&self, key: u64) -> (r: Option<usize>)
        requires
            self.wf(),
        ensures
            match r {
                Some(i) => self.resource_keys@.index_of_first(key) == Some(i as int) && (i as int)
                    < self.resource_keys@.len() && self.resource_keys@[i as int] == key
                    && self.has_resource(key),
                None => !self.has_resource(key),
            },
    {
        let mut i: usize = 0;
        while i < self.resource_keys.len()
            invariant
                self.wf(),
                i <= self.resource_keys@.len(),
                forall|j: int| 0 <= j < i ==> self.resource_keys@[j] != key,
            decreases self.resource_keys@.len() - i,
        {
            if self.resource_keys[i] == key {
                proof {
                    self.lemma_resource_at(key, i as int);
                }
                return Some(i);
            }
            i += 1;
        }
        None
    }

    /// Stores `value` as the single resource of type `key`, overwriting any
    /// previous instance of that type. All other resources, all components
    /// and all entities are untouched.
    pub fn register_resource(&mut self, key: u64, value: C)
        requires
            old(self).wf(),
        ensures
            final(self).wf(),
            final(self).has_resource(key),
            final(self).resource_of(key) == value,
            forall|k2: u64|
                k2 != key ==> (#[trigger] final(self).has_resource(k2) <==> old(self).has_resource(
                    k2,
                )),
            forall|k2: u64|
                k2 != key && old(self).has_resource(k2) ==> #[trigger] final(self).resource_of(k2)
                    == old(self).resource_of(k2),
            Self::same_components(*old(self), *final(self)),
            final(self).entity_masks() == old(self).entity_masks(),
    {
        let ghost pre = *self;
        match self.find_resource(key) {
            Some(i) => {
                self.resource_values[i] = value;
                proof {
                    let post = *self;
                    assert(post.wf());
                    post.lemma_resource_at(key, i as int);
                    assert forall|k2: u64| k2 != key implies (#[trigger] post.has_resource(k2)
                        <==> pre.has_resource(k2)) by {}
                    assert forall|k2: u64| k2 != key && pre.has_resource(k2) implies #[trigger]
                    post.resource_of(k2) == pre.resource_of(k2) by {
                        pre.lemma_resource_index(k2);
                        let j = pre.resource_keys@.index_of_first(k2).unwrap();
                        post.lemma_resource_at(k2, j);
                        assert(j != i);
                    }
                }
            },
            None => {
                self.resource_keys.push(key);
                self.resource_values.push(value);
                proof {
                    let post = *self;
                    let n = pre.resource_keys@.len() as int;
                    assert forall|j: int| 0 <= j < n implies post.resource_keys@[j] != key by {
                        if post.resource_keys@[j] == key {
                            assert(pre.resource_keys@.contains(key));
                        }
                    }
                    assert(post.wf());
                    post.lemma_resource_at(key, n);
                    assert forall|k2: u64| k2 != key && pre.has_resource(k2) implies #[trigger]
                    post.resource_of(k2) == pre.resource_of(k2) && post.has_resource(k2) by {
                        pre.lemma_resource_index(k2);
                        let j = pre.resource_keys@.index_of_first(k2).unwrap();
                        post.lemma_resource_at(k2, j);
                    }
                    assert forall|k2: u64| k2 != key implies (#[trigger] post.has_resource(k2)
                        <==> pre.has_resource(k2)) by {
                        if pre.has_resource(k2) {
                            pre.lemma_resource_index(k2);
                            let j = pre.resource_keys@.index_of_first(k2).unwrap();
                            post.lemma_resource_at(k2, j);
                        }
                        if post.has_resource(k2) {
                            post.lemma_resource_index(k2);
                            let j = post.resource_keys@.index_of_first(k2).unwrap();
                            assert(j != n);
                            assert(pre.resource_keys@[j] == k2);
                            assert(pre.resource_keys@.contains(k2));
                        }
                    }
                    assert forall|k2: u64| k2 != key && post.has_resource(k2) implies
                    pre.has_resource(k2) by {
                        post.lemma_resource_index(k2);
                        let j = post.resource_keys@.index_of_first(k2).unwrap();
                        assert(j != n);
                        assert(pre.resource_keys@[j] == k2);
                    }
                }
            },
        }
    }

    /// Reads the single resource of type `key`, if one is stored.
    pub fn get_resource(&self, key: u64) -> (r: Option<&C>)
        requires
            self.wf(),
        ensures
            match r {
                Some(v) => self.has_resource(key) && *v == self.resource_of(key),
                None => !self.has_resource(key),
            },
    {
        match self.find_resource(key) {
            Some(i) => {
                proof {
                    self.lemma_resource_at(key, i as int);
                }
                Some(&self.resource_values[i])
            },
            None => None,
        }
    }

    /// Removes the single resource of type `key`; a no-op when absent. All
    /// other resources, all components and all entities are untouched.
    pub fn delete_resource(&mut self, key: u64)
        requires
            old(self).wf(),
        ensures
            final(self).wf(),
            !final(self).has_resource(key),
            forall|k2: u64|
                k2 != key ==> (#[trigger] final(self).has_resource(k2) <==> old(self).has_resource(
                    k2,
                )),
            forall|k2: u64|
                k2 != key && old(self).has_resource(k2) ==> #[trigger] final(self).resource_of(k2)
                    == old(self).resource_of(k2),
            !old(self).has_resource(key) ==> *final(self) == *old(self),
            Self::same_components(*old(self), *final(self)),
            final(self).entity_masks() == old(self).entity_masks(),
    {
        let ghost pre = *self;
        if let Some(i) = self.find_resource(key) {
            self.resource_keys.remove(i);
            self.resource_values.remove(i);
            proof {
                let post = *self;
                let i = i as int;
                let n = pre.resource_keys@.len() as int;
                assert(post.resource_keys@ == pre.resource_keys@.remove(i));
                assert(post.resource_values@ == pre.resource_values@.remove(i));
                // How removal renumbers the table.
                assert forall|j: int| 0 <= j < n - 1 implies #[trigger] post.resource_keys@[j]
                    == (if j < i {
                    pre.resource_keys@[j]
                } else {
                    pre.resource_keys@[j + 1]
                }) && post.resource_values@[j] == (if j < i {
                    pre.resource_values@[j]
                } else {
                    pre.resource_values@[j + 1]
                }) by {}
                assert(post.wf()) by {
                    assert forall|j1: int, j2: int|
                        0 <= j1 < j2 < post.resource_keys@.len() implies post.resource_keys@[j1]
                        != post.resource_keys@[j2] by {}
                }
                // The removed key was the only occurrence.
                assert forall|j: int| 0 <= j < n - 1 implies post.resource_keys@[j] != key by {
                    if j >= i {
                        assert(pre.resource_keys@[j + 1] != key);
                    } else {
                        pre.lemma_resource_index(key);
                        assert(pre.resource_keys@.index_of_first(key) == Some(i));
                    }
                }
                assert(!post.has_resource(key));
                // Every other resource keeps its value.
                assert forall|k2: u64| k2 != key && pre.has_resource(k2) implies #[trigger]
                post.resource_of(k2) == pre.resource_of(k2) && post.has_resource(k2) by {
                    pre.lemma_resource_index(k2);
                    let j = pre.resource_keys@.index_of_first(k2).unwrap();
                    assert(j != i);
                    if j < i {
                        post.lemma_resource_at(k2, j);
                    } else {
                        assert(post.resource_keys@[j - 1] == k2);
                        post.lemma_resource_at(k2, j - 1);
                    }
                }
                assert forall|k2: u64| k2 != key implies (#[trigger] post.has_resource(k2)
                    <==> pre.has_resource(k2)) by {
                    if pre.has_resource(k2) {
                        pre.lemma_resource_index(k2);
                        let j = pre.resource_keys@.index_of_first(k2).unwrap();
                        assert(j != i);
                        if j < i {
                            post.lemma_resource_at(k2, j);
                        } else {
                            assert(post.resource_keys@[j - 1] == k2);
                            post.lemma_resource_at(k2, j - 1);
                        }
                    }
                    if post.has_resource(k2) {
                        post.lemma_resource_index(k2);
                        let j = post.resource_keys@.index_of_first(k2).unwrap();
                        if j < i {
                            assert(pre.resource_keys@[j] == k2);
                        } else {
                            assert(pre.resource_keys@[j + 1] == k2);
                        }
                        assert(pre.resource_keys@.contains(k2));
                    }
                }
            }
        }
    }

    /// Whether entity slot `e` matches the predicate mask `pred`: it exists
    /// and its membership mask has every bit of `pred` set.
    pub open spec fn query_matches(self, e: int, pred: u128) -> bool {
        0 <= e < self.num_entities() && covers(self.mask_of(e), pred)
    }

    /// The predicate mask a query uses for type `key`: the key's single
    /// assigned bit, or the empty predicate for a type never registered.
    pub(crate) fn type_mask(&self, key: u64) -> (m: u128)
        requires
            self.wf(),
        ensures
            self.is_registered(key) ==> m == (1u128 << self.bit_of(key) as u128),
            !self.is_registered(key) ==> m == 0,
    {
        match self.find_type(key) {
            Some(t) => {
                proof {
                    self.lemma_bit_of_registered(key);
                }
                1u128 << t
            },
            None => 0,
        }
    }

    /// Evaluates a query's predicate over every entity slot: returns, in
    /// ascending order, exactly the slot indices whose mask has every
    /// predicate bit set. This is a full scan; dead slots match the empty
    /// predicate.
    pub fn run_query(&self, query: &QueryBuilder<'_, C>) -> (r: Vec<usize>)
        requires
            self.wf(),
        ensures
            forall|i: int|
                0 <= i < r@.len() ==> self.query_matches(#[trigger] r@[i] as int, query.pred()),
            forall|e: int| self.query_matches(e, query.pred()) ==> r@.contains(e as usize),
            forall|i: int, j: int| 0 <= i < j < r@.len() ==> r@[i] < r@[j],
    {
        proof {
            query.lemma_pred_value();
        }
        let mut r: Vec<usize> = Vec::new();
        let mut e: usize = 0;
        while e < self.entity_maps.len()
            invariant
                e <= self.num_entities(),
                forall|i: int|
                    0 <= i < r@.len() ==> self.query_matches(#[trigger] r@[i] as int, query.bit_map)
                        && r@[i] < e,
                forall|e2: int|
                    0 <= e2 < e && self.query_matches(e2, query.bit_map) ==> r@.contains(
                        e2 as usize,
                    ),
                forall|i: int, j: int| 0 <= i < j < r@.len() ==> r@[i] < r@[j],
            decreases self.num_entities() - e,
        {
            let ghost prev = r@;
            if (self.entity_maps[e] & query.bit_map) == query.bit_map {
                r.push(e);
            }
            proof {
                assert forall|e2: int|
                    0 <= e2 < e + 1 && self.query_matches(e2, query.bit_map) implies r@.contains(
                    e2 as usize,
                ) by {
                    if e2 < e {
                        let i = choose|i: int| 0 <= i < prev.len() && prev[i] == e2 as usize;
                        assert(r@[i] == e2 as usize);
                    } else {
                        assert(r@[r@.len() - 1] == e2 as usize);
                    }
                }
            }
            e += 1;
        }
        r
    }

    /// How many entity slots the directory holds, dead ones included.
    pub fn entity_count(&self) -> (n: usize)
        ensures
            n == self.num_entities(),
    {
        self.entity_maps.len()
    }

    /// How many distinct component types have been registered.
    pub fn type_count(&self) -> (n: usize)
        ensures
            n == self.num_types(),
    {
        self.registered_keys.len()
    }

    /// Whether `key` has been registered with this world.
    pub fn is_type_registered(&self, key: u64) -> (r: bool)
        ensures
            r == self.is_registered(key),
    {
        self.find_type(key).is_some()
    }

    /// A fresh query over this world, with an empty predicate.
    pub fn query<'a>(&'a self) -> (q: QueryBuilder<'a, C>)
        ensures
            q.spec_world() == *self,
            q.pred() == 0,
    {
        QueryBuilder::new(self)
    }
}

impl<C> Default for World<C> {
    /// A fresh, empty world, equal to [`World::new`].
    fn default() -> (w: Self)
        ensures
            w.wf(),
            w.num_entities() == 0,
            w.num_types() == 0,
            forall|key: u64| !w.has_resource(key),
    {
        World::new()
    }
}

} // verus!
