//! Query builder behavior: predicate accumulation and evaluation order.

use hayal::world::World;

#[derive(Debug, Clone, PartialEq)]
enum Comp {
    Position { x: i32, y: i32 },
    Velocity { dx: i32 },
    Tag(u32),
}

const POSITION: u64 = 1;
const VELOCITY: u64 = 2;
const TAG: u64 = 3;

#[test]
fn query_with_two_components_matches_only_entities_with_both() {
    let mut w: World<Comp> = World::new();
    let e = w.spawn_entity(POSITION, Comp::Position { x: 1, y: 2 });
    w.add_component(e, VELOCITY, Comp::Velocity { dx: 1 }).unwrap();
    let lone = w.spawn_entity(POSITION, Comp::Position { x: 7, y: 7 });
    let hits = w.query().with_component(POSITION).with_component(VELOCITY).run();
    assert_eq!(hits, vec![e]);
    assert!(!hits.contains(&lone));
}

#[test]
fn empty_query_lists_live_entities_ascending() {
    let mut w: World<Comp> = World::new();
    let a = w.spawn_entity(TAG, Comp::Tag(0));
    let b = w.spawn_entity(POSITION, Comp::Position { x: 0, y: 0 });
    let c = w.spawn_entity(VELOCITY, Comp::Velocity { dx: 2 });
    let hits = w.query().run();
    assert_eq!(hits, vec![a, b, c]);
}

#[test]
fn query_results_are_ascending_by_index() {
    let mut w: World<Comp> = World::new();
    for i in 0..6 {
        w.spawn_entity(TAG, Comp::Tag(i));
    }
    w.delete_entity(1);
    w.delete_entity(4);
    let hits = w.query().with_component(TAG).run();
    assert_eq!(hits, vec![0, 2, 3, 5]);
}

#[test]
fn query_with_unregistered_type_adds_nothing_to_predicate() {
    let mut w: World<Comp> = World::new();
    let e = w.spawn_entity(POSITION, Comp::Position { x: 0, y: 0 });
    // VELOCITY was never registered: it contributes nothing, so the query
    // degenerates to the POSITION-only one.
    let hits = w.query().with_component(POSITION).with_component(VELOCITY).run();
    assert_eq!(hits, vec![e]);
}

#[test]
fn deleted_entity_never_matches_a_component_query() {
    let mut w: World<Comp> = World::new();
    let e = w.spawn_entity(POSITION, Comp::Position { x: 3, y: 3 });
    let keep = w.spawn_entity(POSITION, Comp::Position { x: 5, y: 5 });
    w.delete_entity(e);
    let hits = w.query().with_component(POSITION).run();
    assert_eq!(hits, vec![keep]);
}
