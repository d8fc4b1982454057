//! The singleton resource store: one instance per type key, explicit
//! lifecycle.

use hayal::world::World;

#[derive(Debug, Clone, PartialEq)]
enum Res {
    FrameCount(u64),
    Title(String),
}

const FRAME_COUNT: u64 = 100;
const TITLE: u64 = 101;

#[test]
fn register_then_get_returns_the_value() {
    let mut w: World<Res> = World::new();
    w.register_resource(FRAME_COUNT, Res::FrameCount(7));
    assert_eq!(w.get_resource(FRAME_COUNT), Some(&Res::FrameCount(7)));
}

#[test]
fn get_absent_resource_is_none_not_an_error() {
    let w: World<Res> = World::new();
    assert_eq!(w.get_resource(FRAME_COUNT), None);
}

#[test]
fn register_overwrites_the_single_instance() {
    let mut w: World<Res> = World::new();
    w.register_resource(TITLE, Res::Title(String::from("one")));
    w.register_resource(TITLE, Res::Title(String::from("two")));
    assert_eq!(w.get_resource(TITLE), Some(&Res::Title(String::from("two"))));
}

#[test]
fn delete_resource_removes_only_its_key() {
    let mut w: World<Res> = World::new();
    w.register_resource(FRAME_COUNT, Res::FrameCount(1));
    w.register_resource(TITLE, Res::Title(String::from("kept")));
    w.delete_resource(FRAME_COUNT);
    assert_eq!(w.get_resource(FRAME_COUNT), None);
    assert_eq!(w.get_resource(TITLE), Some(&Res::Title(String::from("kept"))));
}

#[test]
fn delete_absent_resource_is_noop() {
    let mut w: World<Res> = World::new();
    w.delete_resource(TITLE);
    assert_eq!(w.get_resource(TITLE), None);
}

#[test]
fn resources_live_apart_from_entities() {
    let mut w: World<Res> = World::new();
    w.register_resource(FRAME_COUNT, Res::FrameCount(3));
    let e = w.spawn_entity(1, Res::FrameCount(0));
    w.delete_entity(e);
    // Entity churn never touches the resource store.
    assert_eq!(w.get_resource(FRAME_COUNT), Some(&Res::FrameCount(3)));
}
