//! The query builder: accumulates a predicate mask over requested component
//! types and evaluates it against the entity directory.

use vstd::prelude::*;

use crate::masks::covers;
use crate::masks::lemma_or_zero;
use crate::world::World;

verus! {

/// Builds an "entity has all of these component types" predicate against one
/// world, then evaluates it with [`QueryBuilder::run`].
pub struct QueryBuilder<'a, C> {
    pub(crate) world: &'a World<C>,
    /// The accumulated predicate: one bit per requested, registered type.
    pub(crate) bit_map: u128,
}

impl<'a, C> QueryBuilder<'a, C> {
    /// The world this query is bound to.
    pub closed spec fn spec_world(self) -> World<C> {
        *self.world
    }

    /// The accumulated predicate mask.
    pub closed spec fn pred(self) -> u128 {
        self.bit_map
    }

    /// Lets the evaluator identify the predicate mask with the stored field.
    pub(crate) proof fn lemma_pred_value(self)
        ensures
            self.pred() == self.bit_map,
    {
    }

    /// A query over `world` with the empty predicate, which every slot
    /// matches.
    pub fn new(world: &'a World<C>) -> (q: Self)
        ensures
            q.spec_world() == *world,
            q.pred() == 0,
    {
        QueryBuilder { world, bit_map: 0 }
    }

    /// Adds the component type `key` to the predicate: entities must have its
    /// bit set to match. A type never registered with the world contributes
    /// nothing to the predicate.
    pub fn with_component(self, key: u64) -> (q: Self)
        requires
            self.spec_world().wf(),
        ensures
            q.spec_world() == self.spec_world(),
            self.spec_world().is_registered(key) ==> q.pred() == (self.pred() | (1u128
                << self.spec_world().bit_of(key) as u128)),
            !self.spec_world().is_registered(key) ==> q.pred() == self.pred(),
    {
        let m = self.world.type_mask(key);
        proof {
            lemma_or_zero(self.bit_map);
        }
        QueryBuilder { world: self.world, bit_map: self.bit_map | m }
    }

    /// Evaluates the predicate over every entity slot of the bound world:
    /// returns, in ascending order, exactly the slot indices whose membership
    /// mask has every predicate bit set.
    pub fn run(&self) -> (r: Vec<usize>)
        requires
            self.spec_world().wf(),
        ensures
            forall|i: int|
                0 <= i < r@.len() ==> self.spec_world().query_matches(
                    #[trigger] r@[i] as int,
                    self.pred(),
                ),
            forall|e: int|
                self.spec_world().query_matches(e, self.pred()) ==> r@.contains(e as usize),
            forall|i: int, j: int| 0 <= i < j < r@.len() ==> r@[i] < r@[j],
    {
        self.world.run_query(self)
    }
}

} // verus!
