//! Entity and component storage behavior, seen through the public API.

use hayal::world::World;
use hayal::WorldError;

/// The component payload these tests store, one variant per component kind.
#[derive(Debug, Clone, PartialEq)]
enum Comp {
    Position { x: i32, y: i32 },
    Velocity { dx: i32 },
    Marker,
}

const POSITION: u64 = 1;
const VELOCITY: u64 = 2;
const MARKER: u64 = 3;

#[test]
fn add_component_round_trips() {
    let mut w: World<Comp> = World::new();
    let e = w.spawn_entity(POSITION, Comp::Position { x: 1, y: 2 });
    assert_eq!(e, 0);
    let got = w.get_component(e, POSITION).unwrap();
    assert_eq!(got, &Comp::Position { x: 1, y: 2 });
}

#[test]
fn add_component_overwrites_previous_value() {
    let mut w: World<Comp> = World::new();
    let e = w.spawn_entity(POSITION, Comp::Position { x: 1, y: 2 });
    w.add_component(e, POSITION, Comp::Position { x: 9, y: 9 }).unwrap();
    let got = w.get_component(e, POSITION).unwrap();
    assert_eq!(got, &Comp::Position { x: 9, y: 9 });
}

#[test]
fn add_component_to_missing_entity_fails() {
    let mut w: World<Comp> = World::new();
    let r = w.add_component(5, POSITION, Comp::Marker);
    assert_eq!(r, Err(WorldError::EntityNotFound));
    // The type registration itself is retained.
    assert!(w.is_type_registered(POSITION));
    assert_eq!(w.entity_count(), 0);
}

#[test]
fn get_component_reports_unregistered_then_unslotted() {
    let mut w: World<Comp> = World::new();
    let e = w.spawn_entity(POSITION, Comp::Position { x: 0, y: 0 });
    // Velocity was never registered on any entity.
    assert_eq!(w.get_component(e, VELOCITY).unwrap_err(), WorldError::ComponentNotFound);
    // Register Velocity on a different entity; `e` still never got one.
    let other = w.spawn_entity(VELOCITY, Comp::Velocity { dx: 1 });
    assert_ne!(other, e);
    assert_eq!(w.get_component(e, VELOCITY).unwrap_err(), WorldError::ComponentNotSlotted);
}

#[test]
fn spawn_reuses_lowest_freed_slot() {
    let mut w: World<Comp> = World::new();
    let first = w.spawn_entity(MARKER, Comp::Marker);
    let second = w.spawn_entity(MARKER, Comp::Marker);
    assert_eq!((first, second), (0, 1));
    w.delete_entity(first);
    // The third spawn reuses the freed index rather than allocating index 2.
    let third = w.spawn_entity(MARKER, Comp::Marker);
    assert_eq!(third, 0);
    assert_eq!(w.entity_count(), 2);
}

#[test]
fn spawn_grows_directory_when_no_slot_is_free() {
    let mut w: World<Comp> = World::new();
    let a = w.spawn_entity(MARKER, Comp::Marker);
    let b = w.spawn_entity(MARKER, Comp::Marker);
    let c = w.spawn_entity(MARKER, Comp::Marker);
    assert_eq!((a, b, c), (0, 1, 2));
    assert_eq!(w.entity_count(), 3);
}

#[test]
fn delete_component_hides_value_from_queries_but_not_slot() {
    let mut w: World<Comp> = World::new();
    let e = w.spawn_entity(POSITION, Comp::Position { x: 4, y: 5 });
    w.delete_component(e, POSITION);
    // Membership is gone: the query no longer matches.
    let hits = w.query().with_component(POSITION).run();
    assert!(!hits.contains(&e));
    // The physical slot is retained and still readable at the storage level.
    assert_eq!(w.get_component(e, POSITION).unwrap(), &Comp::Position { x: 4, y: 5 });
}

#[test]
fn delete_component_is_noop_for_unregistered_type() {
    let mut w: World<Comp> = World::new();
    let e = w.spawn_entity(POSITION, Comp::Position { x: 0, y: 0 });
    w.delete_component(e, VELOCITY);
    assert!(!w.is_type_registered(VELOCITY));
    let hits = w.query().with_component(POSITION).run();
    assert_eq!(hits, vec![e]);
}

#[test]
fn delete_entity_clears_every_membership() {
    let mut w: World<Comp> = World::new();
    let e = w.spawn_entity(POSITION, Comp::Position { x: 1, y: 1 });
    w.add_component(e, VELOCITY, Comp::Velocity { dx: 3 }).unwrap();
    w.delete_entity(e);
    assert!(w.query().with_component(POSITION).run().is_empty());
    assert!(w.query().with_component(VELOCITY).run().is_empty());
}

#[test]
fn type_bits_are_assigned_once_in_first_seen_order() {
    let mut w: World<Comp> = World::new();
    let e = w.spawn_entity(POSITION, Comp::Position { x: 0, y: 0 });
    w.add_component(e, VELOCITY, Comp::Velocity { dx: 1 }).unwrap();
    assert_eq!(w.type_count(), 2);
    // Re-adding already seen types registers nothing new.
    w.add_component(e, POSITION, Comp::Position { x: 1, y: 1 }).unwrap();
    w.ensure_component(VELOCITY);
    assert_eq!(w.type_count(), 2);
    assert!(w.is_type_registered(POSITION));
    assert!(w.is_type_registered(VELOCITY));
    assert!(!w.is_type_registered(MARKER));
}

#[test]
fn spawn_with_sequence_attaches_every_component() {
    let mut w: World<Comp> = World::new();
    let e = w.spawn(vec![
        (POSITION, Comp::Position { x: 1, y: 2 }),
        (VELOCITY, Comp::Velocity { dx: 1 }),
    ]);
    let hits = w.query().with_component(POSITION).with_component(VELOCITY).run();
    assert_eq!(hits, vec![e]);
    assert_eq!(w.get_component(e, POSITION).unwrap(), &Comp::Position { x: 1, y: 2 });
    assert_eq!(w.get_component(e, VELOCITY).unwrap(), &Comp::Velocity { dx: 1 });
}

#[test]
fn spawn_with_duplicate_key_keeps_the_last_value() {
    let mut w: World<Comp> = World::new();
    let e = w.spawn(vec![
        (POSITION, Comp::Position { x: 1, y: 1 }),
        (POSITION, Comp::Position { x: 2, y: 2 }),
    ]);
    assert_eq!(w.get_component(e, POSITION).unwrap(), &Comp::Position { x: 2, y: 2 });
}

#[test]
fn spawn_with_empty_sequence_leaves_the_slot_dead() {
    let mut w: World<Comp> = World::new();
    let probe = w.spawn_entity(POSITION, Comp::Position { x: 0, y: 0 });
    w.delete_entity(probe);
    let e = w.spawn(Vec::new());
    assert_eq!(e, probe);
    assert!(w.query().with_component(POSITION).run().is_empty());
    // The slot has no membership, so the next spawn reuses it.
    let again = w.spawn_entity(MARKER, Comp::Marker);
    assert_eq!(again, e);
}

#[test]
fn first_seen_type_owns_the_lowest_bit() {
    let mut w: World<Comp> = World::new();
    let e = w.spawn_entity(POSITION, Comp::Position { x: 0, y: 0 });
    w.add_component(e, VELOCITY, Comp::Velocity { dx: 1 }).unwrap();
    // Registration order is bit order: POSITION got bit 0, VELOCITY bit 1.
    assert!(w.has_bit_mask(e, 0b01));
    assert!(w.has_bit_mask(e, 0b11));
    w.delete_component(e, POSITION);
    assert!(!w.has_bit_mask(e, 0b01));
    assert!(w.has_bit_mask(e, 0b10));
}

#[test]
fn registry_fills_to_the_mask_width() {
    let mut w: World<Comp> = World::new();
    let e = w.spawn_entity(0, Comp::Marker);
    for key in 1..128u64 {
        w.add_component(e, key, Comp::Marker).unwrap();
    }
    assert_eq!(w.type_count(), 128);
    // The entity carries every type, so it matches the all-type query.
    let mut q = w.query();
    for key in 0..128u64 {
        q = q.with_component(key);
    }
    assert_eq!(q.run(), vec![e]);
    // Dropping a single membership breaks the match.
    w.delete_component(e, 77);
    let mut q = w.query();
    for key in 0..128u64 {
        q = q.with_component(key);
    }
    assert!(q.run().is_empty());
}

#[test]
fn error_messages_name_the_failure() {
    assert_eq!(WorldError::ComponentNotFound.message(), "component was never spawned");
    assert_eq!(WorldError::EntityNotFound.message(), "entity not found");
    assert_eq!(WorldError::ComponentNotSlotted.message(), "component not slotted to entry");
}
