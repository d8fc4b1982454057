//! Built-in component types for the drawing collaborators — a position, a
//! piece of text, a background color — and the hello-world demo system. The
//! systems that actually render these live with the driver, outside this
//! crate; here they are plain data.

use vstd::prelude::*;

use crate::scheduler::System;
use crate::world::World;
use crate::MASK_WIDTH;

verus! {

/// The fixed type key of [`Transform`] in a world of [`BuiltinComponent`].
pub const TRANSFORM_KEY: u64 = 1;

/// The fixed type key of [`Text`] in a world of [`BuiltinComponent`].
pub const TEXT_KEY: u64 = 2;

/// The fixed resource key of [`BackgroundColor`].
pub const BACKGROUND_COLOR_KEY: u64 = 3;

/// A position on the render target.
#[derive(Clone, Copy, Debug, PartialEq, Eq, Structural)]
pub struct Transform {
    pub x: i32,
    pub y: i32,
}

/// A piece of text to draw, with its font size.
#[derive(Clone, Copy, Debug)]
pub struct Text {
    pub text: &'static str,
    pub font_size: i32,
}

/// The color a renderer clears the background to, as plain channel values.
#[derive(Clone, Copy, Debug, PartialEq, Eq, Structural)]
pub struct BackgroundColor {
    pub red: u8,
    pub green: u8,
    pub blue: u8,
    pub alpha: u8,
}

/// The payload of a world that stores the built-in component types, each
/// paired with its fixed key.
#[derive(Clone, Copy, Debug)]
pub enum BuiltinComponent {
    Transform(Transform),
    Text(Text),
    BackgroundColor(BackgroundColor),
}

/// Spawns one entity at position (12, 12) carrying a "Hello World!" text of
/// font size 70, the demo content a fresh world starts from.
pub fn hello_world_system(world: &mut World<BuiltinComponent>)
    requires
        old(world).wf(),
        old(world).num_types() + 2 <= MASK_WIDTH,
    ensures
        final(world).wf(),
        exists|e: int|
            {
                &&& #[trigger] final(world).has_component(e, TRANSFORM_KEY)
                &&& final(world).slot_of(TRANSFORM_KEY, e) == Some(
                    BuiltinComponent::Transform(Transform { x: 12, y: 12 }),
                )
                &&& final(world).has_component(e, TEXT_KEY)
                &&& final(world).slot_of(TEXT_KEY, e) == Some(
                    BuiltinComponent::Text(Text { text: "Hello World!", font_size: 70 }),
                )
            },
{
    let entity = world.spawn_entity(
        TRANSFORM_KEY,
        BuiltinComponent::Transform(Transform { x: 12, y: 12 }),
    );
    let attached = world.add_component(
        entity,
        TEXT_KEY,
        BuiltinComponent::Text(Text { text: "Hello World!", font_size: 70 }),
    );
    proof {
        assert(attached is Ok);
        assert(world.has_component(entity as int, TRANSFORM_KEY));
    }
}

/// The hello-world demo as a registrable [`System`]: when there is room for
/// its two component types it spawns the drawable entity; otherwise it
/// leaves the world alone.
pub struct HelloWorldSystem;

impl System for HelloWorldSystem {
    type Comp = BuiltinComponent;

    /// The world gains an entity drawable as hello-world text, provided the
    /// type registry had room for the two built-in component types.
    open spec fn transition(
        self,
        pre: World<BuiltinComponent>,
        post: World<BuiltinComponent>,
    ) -> bool {
        pre.num_types() + 2 <= MASK_WIDTH ==> exists|e: int|
            {
                &&& #[trigger] post.has_component(e, TRANSFORM_KEY)
                &&& post.has_component(e, TEXT_KEY)
            }
    }

    fn run(&self, world: &mut World<BuiltinComponent>) {
        let types = world.type_count();
        if types < (MASK_WIDTH as usize) - 1 {
            hello_world_system(world);
        }
    }
}

} // verus!
