//! A minimal entity-component-system runtime.
//!
//! The [`World`] owns a growable table of entities, a per-type sparse set of
//! component values, and a side table of singleton resources. Component types
//! are identified by caller-chosen `u64` keys; each distinct key is assigned a
//! bit position in a 128-bit membership mask the first time it is seen, and an
//! entity's mask records which component types it currently has. Queries are
//! evaluated by testing each entity's mask against a predicate mask built from
//! the requested keys. A [`Scheduler`] drives registered systems against the
//! world, phase by phase, in registration order.

use vstd::prelude::*;

mod masks;

pub mod builtins;
pub mod errors;
pub mod laws;
pub mod query;
pub mod scheduler;
pub mod world;

pub use errors::WorldError;
pub use query::QueryBuilder;
pub use scheduler::RenderSystem;
pub use scheduler::Schedule;
pub use scheduler::Scheduler;
pub use scheduler::System;
pub use world::World;

verus! {

/// The membership masks are this many bits wide, so one world can register at
/// most this many distinct component type keys.
pub const MASK_WIDTH: u64 = 128;

} // verus!
