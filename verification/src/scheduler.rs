//! The scheduler: ordered, per-phase lists of systems, run in registration
//! order against a shared world, plus a separately ordered list of render
//! systems that additionally receive an externally owned draw target.

use vstd::prelude::*;

use crate::world::World;

verus! {

/// A lifecycle phase at which a batch of systems runs. The driver runs
/// `Init` once at startup, `Update` once per frame, and `Deinit` once at
/// shutdown; the scheduler itself keeps no state between invocations beyond
/// its registered lists.
#[derive(Clone, Copy, Debug, PartialEq, Eq, Hash, Structural)]
pub enum Schedule {
    Init,
    Update,
    Deinit,
}

/// A unit of game logic run against the world during a phase.
///
/// `transition` is the system's declared effect; `run` promises to take the
/// world from its old value to a new one inside that relation, preserving
/// well-formedness. An implementor picks the relation and proves its body
/// against it.
pub trait System: Sized {
    /// The component payload of the worlds this system runs on.
    type Comp;

    /// The transition relation that `run` realises.
    spec fn transition(self, pre: World<Self::Comp>, post: World<Self::Comp>) -> bool;

    /// Runs the system once against the world.
    fn run(&self, world: &mut World<Self::Comp>)
        requires
            old(world).wf(),
        ensures
            final(world).wf(),
            self.transition(*old(world), *final(world)),
    ;
}

/// A drawing unit: like [`System`], but also handed the externally owned
/// draw-target handle, whatever type the renderer collaborator supplies.
pub trait RenderSystem: Sized {
    /// The component payload of the worlds this system runs on.
    type Comp;

    /// The draw-target handle this system draws to.
    type Target;

    /// The transition relation that `run` realises over world and target.
    spec fn transition(
        self,
        pre: World<Self::Comp>,
        pre_target: Self::Target,
        post: World<Self::Comp>,
        post_target: Self::Target,
    ) -> bool;

    /// Runs the system once against the world and the draw target.
    fn run(&self, world: &mut World<Self::Comp>, target: &mut Self::Target)
        requires
            old(world).wf(),
        ensures
            final(world).wf(),
            self.transition(*old(world), *old(target), *final(world), *final(target)),
    ;
}

/// The world evolved from `pre` to `post` by running exactly the given
/// systems, in order: there is a chain of intermediate well-formed worlds
/// linked by each system's transition relation.
pub open spec fn runs_seq<S: System>(
    systems: Seq<S>,
    pre: World<S::Comp>,
    post: World<S::Comp>,
) -> bool
    decreases systems.len(),
{
    if systems.len() == 0 {
        post == pre
    } else {
        exists|mid: World<S::Comp>|
            {
                &&& #[trigger] systems[0].transition(pre, mid)
                &&& mid.wf()
                &&& runs_seq(systems.skip(1), mid, post)
            }
    }
}

/// Appending one more system to a finished chain extends the chain by that
/// system's step.
pub proof fn lemma_runs_seq_snoc<S: System>(
    systems: Seq<S>,
    last: S,
    pre: World<S::Comp>,
    mid: World<S::Comp>,
    post: World<S::Comp>,
)
    requires
        runs_seq(systems, pre, mid),
        mid.wf(),
        post.wf(),
        last.transition(mid, post),
    ensures
        runs_seq(systems.push(last), pre, post),
    decreases systems.len(),
{
    if systems.len() == 0 {
        assert(pre == mid);
        assert(systems.push(last)[0] == last);
        assert(systems.push(last).skip(1) =~= Seq::<S>::empty());
        assert(last.transition(pre, post) && post.wf() && runs_seq(
            systems.push(last).skip(1),
            post,
            post,
        ));
    } else {
        let m = choose|m: World<S::Comp>|
            {
                &&& #[trigger] systems[0].transition(pre, m)
                &&& m.wf()
                &&& runs_seq(systems.skip(1), m, mid)
            };
        lemma_runs_seq_snoc(systems.skip(1), last, m, mid, post);
        assert(systems.push(last).skip(1) =~= systems.skip(1).push(last));
        assert(systems.push(last)[0] == systems[0]);
        assert(systems[0].transition(pre, m) && m.wf() && runs_seq(
            systems.push(last).skip(1),
            m,
            post,
        ));
    }
}

/// World and draw target evolved from `pre` to `post` by running exactly the
/// given render systems, in order.
pub open spec fn render_runs_seq<R: RenderSystem>(
    systems: Seq<R>,
    pre: World<R::Comp>,
    pre_target: R::Target,
    post: World<R::Comp>,
    post_target: R::Target,
) -> bool
    decreases systems.len(),
{
    if systems.len() == 0 {
        post == pre && post_target == pre_target
    } else {
        exists|mid: World<R::Comp>, mid_target: R::Target|
            {
                &&& #[trigger] systems[0].transition(pre, pre_target, mid, mid_target)
                &&& mid.wf()
                &&& render_runs_seq(systems.skip(1), mid, mid_target, post, post_target)
            }
    }
}

/// The render-chain analogue of [`lemma_runs_seq_snoc`].
pub proof fn lemma_render_runs_seq_snoc<R: RenderSystem>(
    systems: Seq<R>,
    last: R,
    pre: World<R::Comp>,
    pre_target: R::Target,
    mid: World<R::Comp>,
    mid_target: R::Target,
    post: World<R::Comp>,
    post_target: R::Target,
)
    requires
        render_runs_seq(systems, pre, pre_target, mid, mid_target),
        mid.wf(),
        post.wf(),
        last.transition(mid, mid_target, post, post_target),
    ensures
        render_runs_seq(systems.push(last), pre, pre_target, post, post_target),
    decreases systems.len(),
{
    if systems.len() == 0 {
        assert(systems.push(last)[0] == last);
        assert(systems.push(last).skip(1) =~= Seq::<R>::empty());
        assert(last.transition(pre, pre_target, post, post_target) && post.wf()
            && render_runs_seq(systems.push(last).skip(1), post, post_target, post, post_target));
    } else {
        let (m, mt) = choose|m: World<R::Comp>, mt: R::Target|
            {
                &&& #[trigger] systems[0].transition(pre, pre_target, m, mt)
                &&& m.wf()
                &&& render_runs_seq(systems.skip(1), m, mt, mid, mid_target)
            };
        lemma_render_runs_seq_snoc(
            systems.skip(1),
            last,
            m,
            mt,
            mid,
            mid_target,
            post,
            post_target,
        );
        assert(systems.push(last).skip(1) =~= systems.skip(1).push(last));
        assert(systems.push(last)[0] == systems[0]);
        assert(systems[0].transition(pre, pre_target, m, mt) && m.wf() && render_runs_seq(
            systems.push(last).skip(1),
            m,
            mt,
            post,
            post_target,
        ));
    }
}

/// Ordered, per-phase lists of systems (`S`) and one separately ordered list
/// of render systems (`R`). Registration order is execution order.
pub struct Scheduler<S, R> {
    init_systems: Vec<S>,
    update_systems: Vec<S>,
    deinit_systems: Vec<S>,
    render_systems: Vec<R>,
}

impl<S, R> Scheduler<S, R> {
    /// The systems registered for a phase, in registration order.
    pub closed spec fn systems_of(self, schedule: Schedule) -> Seq<S> {
        match schedule {
            Schedule::Init => self.init_systems@,
            Schedule::Update => self.update_systems@,
            Schedule::Deinit => self.deinit_systems@,
        }
    }

    /// The registered render systems, in registration order.
    pub closed spec fn render_list(self) -> Seq<R> {
        self.render_systems@
    }

    /// A scheduler with nothing registered.
    pub fn new() -> (s: Self)
        ensures
            forall|schedule: Schedule| #[trigger] s.systems_of(schedule).len() == 0,
            s.render_list().len() == 0,
    {
        Scheduler {
            init_systems: Vec::new(),
            update_systems: Vec::new(),
            deinit_systems: Vec::new(),
            render_systems: Vec::new(),
        }
    }

    /// Appends `system` to the given phase's list; it will run after every
    /// system already registered for that phase.
    pub fn add_system(&mut self, schedule: Schedule, system: S)
        ensures
            final(self).systems_of(schedule) == old(self).systems_of(schedule).push(system),
            forall|other: Schedule|
                other != schedule ==> #[trigger] final(self).systems_of(other) == old(
                    self,
                ).systems_of(other),
            final(self).render_list() == old(self).render_list(),
    {
        match schedule {
            Schedule::Init => self.init_systems.push(system),
            Schedule::Update => self.update_systems.push(system),
            Schedule::Deinit => self.deinit_systems.push(system),
        }
    }

    /// Appends `system` to the render list; it will draw after every render
    /// system already registered.
    pub fn add_render_system(&mut self, system: R)
        ensures
            final(self).render_list() == old(self).render_list().push(system),
            forall|schedule: Schedule| #[trigger]
                final(self).systems_of(schedule) == old(self).systems_of(schedule),
    {
        self.render_systems.push(system);
    }
}

impl<S: System, R> Scheduler<S, R> {
    /// Runs every system registered for `schedule`, in registration order,
    /// against the world: each system completes before the next begins, and
    /// the world steps through the chain of their transition relations.
    pub fn run_schedule(&self, schedule: Schedule, world: &mut World<S::Comp>)
        requires
            old(world).wf(),
        ensures
            final(world).wf(),
            runs_seq(self.systems_of(schedule), *old(world), *final(world)),
    {
        let systems: &Vec<S> = match schedule {
            Schedule::Init => &self.init_systems,
            Schedule::Update => &self.update_systems,
            Schedule::Deinit => &self.deinit_systems,
        };
        proof {
            assert(systems@ == self.systems_of(schedule));
        }
        let mut i: usize = 0;
        while i < systems.len()
            invariant
                i <= systems@.len(),
                world.wf(),
                runs_seq(systems@.take(i as int), *old(world), *world),
            decreases systems@.len() - i,
        {
            let ghost before = *world;
            systems[i].run(world);
            proof {
                lemma_runs_seq_snoc(
                    systems@.take(i as int),
                    systems@[i as int],
                    *old(world),
                    before,
                    *world,
                );
                assert(systems@.take(i + 1) =~= systems@.take(i as int).push(systems@[i as int]));
            }
            i += 1;
        }
        proof {
            assert(systems@.take(systems@.len() as int) =~= systems@);
        }
    }
}

impl<S, R: RenderSystem> Scheduler<S, R> {
    /// Runs every registered render system, in registration order, against
    /// the world and the externally owned draw target.
    pub fn run_render_schedule(&self, world: &mut World<R::Comp>, target: &mut R::Target)
        requires
            old(world).wf(),
        ensures
            final(world).wf(),
            render_runs_seq(
                self.render_list(),
                *old(world),
                *old(target),
                *final(world),
                *final(target),
            ),
    {
        let mut i: usize = 0;
        while i < self.render_systems.len()
            invariant
                i <= self.render_list().len(),
                world.wf(),
                render_runs_seq(
                    self.render_list().take(i as int),
                    *old(world),
                    *old(target),
                    *world,
                    *target,
                ),
            decreases self.render_list().len() - i,
        {
            let ghost before = *world;
            let ghost before_target = *target;
            self.render_systems[i].run(world, target);
            proof {
                lemma_render_runs_seq_snoc(
                    self.render_list().take(i as int),
                    self.render_list()[i as int],
                    *old(world),
                    *old(target),
                    before,
                    before_target,
                    *world,
                    *target,
                );
                assert(self.render_list().take(i + 1) =~= self.render_list().take(i as int).push(
                    self.render_list()[i as int],
                ));
            }
            i += 1;
        }
        proof {
            assert(self.render_list().take(self.render_list().len() as int) =~= self.render_list());
        }
    }
}

} // verus!
