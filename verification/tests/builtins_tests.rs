//! The built-in drawable component types, stored and queried like any other.

use hayal::builtins::{Text, Transform};
use hayal::world::World;

#[derive(Debug, Clone)]
enum Comp {
    Transform(Transform),
    Text(Text),
}

const TRANSFORM: u64 = 1;
const TEXT: u64 = 2;

#[test]
fn drawable_entity_carries_transform_and_text() {
    let mut w: World<Comp> = World::new();
    let e = w.spawn_entity(TRANSFORM, Comp::Transform(Transform { x: 12, y: 12 }));
    w.add_component(e, TEXT, Comp::Text(Text { text: "Hello World!", font_size: 70 })).unwrap();

    let drawable = w.query().with_component(TEXT).with_component(TRANSFORM).run();
    assert_eq!(drawable, vec![e]);

    match w.get_component(e, TRANSFORM).unwrap() {
        Comp::Transform(t) => assert_eq!((t.x, t.y), (12, 12)),
        other => panic!("expected a transform, got {:?}", other),
    }
    match w.get_component(e, TEXT).unwrap() {
        Comp::Text(t) => {
            assert_eq!(t.text, "Hello World!");
            assert_eq!(t.font_size, 70);
        },
        other => panic!("expected a text, got {:?}", other),
    }
}
