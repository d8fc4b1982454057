//! Scheduler behavior: per-phase registration order is execution order, and
//! render systems run separately with a draw target.

use hayal::world::World;
use hayal::{RenderSystem, Schedule, Scheduler, System};

#[derive(Debug, Clone, PartialEq)]
enum Comp {
    Log(Vec<u64>),
}

const LOG: u64 = 50;

/// Appends its tag to the shared log resource each time it runs.
struct TagSystem {
    tag: u64,
}

impl System for TagSystem {
    type Comp = Comp;

    // The declared effect of this system; the tests observe only runtime
    // behavior, so the loosest relation serves.
    fn transition(self, _pre: World<Comp>, _post: World<Comp>) -> bool {
        true
    }

    fn run(&self, world: &mut World<Comp>) {
        let mut log = match world.get_resource(LOG) {
            Some(Comp::Log(entries)) => entries.clone(),
            None => Vec::new(),
        };
        log.push(self.tag);
        world.register_resource(LOG, Comp::Log(log));
    }
}

/// Writes one line per run into the external draw target.
struct BannerSystem {
    banner: &'static str,
}

impl RenderSystem for BannerSystem {
    type Comp = Comp;
    type Target = Vec<String>;

    fn transition(
        self,
        _pre: World<Comp>,
        _pre_target: Vec<String>,
        _post: World<Comp>,
        _post_target: Vec<String>,
    ) -> bool {
        true
    }

    fn run(&self, _world: &mut World<Comp>, target: &mut Vec<String>) {
        target.push(String::from(self.banner));
    }
}

fn log_of(world: &World<Comp>) -> Vec<u64> {
    match world.get_resource(LOG) {
        Some(Comp::Log(entries)) => entries.clone(),
        None => Vec::new(),
    }
}

#[test]
fn update_systems_run_in_registration_order() {
    let mut world: World<Comp> = World::new();
    let mut scheduler: Scheduler<TagSystem, BannerSystem> = Scheduler::new();
    scheduler.add_system(Schedule::Update, TagSystem { tag: 1 });
    scheduler.add_system(Schedule::Update, TagSystem { tag: 2 });
    scheduler.run_schedule(Schedule::Update, &mut world);
    // System A completed (its log entry is in place) before B began.
    assert_eq!(log_of(&world), vec![1, 2]);
}

#[test]
fn phases_keep_their_own_system_lists() {
    let mut world: World<Comp> = World::new();
    let mut scheduler: Scheduler<TagSystem, BannerSystem> = Scheduler::new();
    scheduler.add_system(Schedule::Init, TagSystem { tag: 10 });
    scheduler.add_system(Schedule::Update, TagSystem { tag: 20 });
    scheduler.add_system(Schedule::Deinit, TagSystem { tag: 30 });
    scheduler.run_schedule(Schedule::Init, &mut world);
    assert_eq!(log_of(&world), vec![10]);
    scheduler.run_schedule(Schedule::Update, &mut world);
    scheduler.run_schedule(Schedule::Update, &mut world);
    assert_eq!(log_of(&world), vec![10, 20, 20]);
    scheduler.run_schedule(Schedule::Deinit, &mut world);
    assert_eq!(log_of(&world), vec![10, 20, 20, 30]);
}

#[test]
fn running_an_empty_phase_changes_nothing() {
    let mut world: World<Comp> = World::new();
    let scheduler: Scheduler<TagSystem, BannerSystem> = Scheduler::new();
    scheduler.run_schedule(Schedule::Update, &mut world);
    assert_eq!(log_of(&world), Vec::<u64>::new());
    assert_eq!(world.entity_count(), 0);
}

#[test]
fn render_systems_draw_in_registration_order() {
    let mut world: World<Comp> = World::new();
    let mut scheduler: Scheduler<TagSystem, BannerSystem> = Scheduler::new();
    scheduler.add_render_system(BannerSystem { banner: "first" });
    scheduler.add_render_system(BannerSystem { banner: "second" });
    let mut target: Vec<String> = Vec::new();
    scheduler.run_render_schedule(&mut world, &mut target);
    assert_eq!(target, vec![String::from("first"), String::from("second")]);
}
