//! The simulation driver: owns the bodies, the tree and the spawner, and
//! runs one step at a time.
use vstd::prelude::*;
use crate::arena::{empty_node, Tree};
use crate::builder::{build_spec, has_duplicate, BuildError, MAX_BODIES};
use crate::physics::{body_after_step, covers_exactly, sat, step, ConfigError, Constants, Vec2D, ACC_LIMIT, POS_LIMIT, VEL_LIMIT};
use crate::random::random_in;
use crate::region::Region;
use crate::spawner::{drag_velocity, scattered, Spawner, MAX_SPAWN_RADIUS, MAX_SPAWN_SPEED};

verus! {

/// Bodies as a struct of arrays, with everything one step needs.
pub struct Simulation {
    pub positions: Vec2D,
    pub velocities: Vec2D,
    pub accelerations: Vec2D,
    pub bh_tree: Tree,
    pub constants: Constants,
    pub spawner: Spawner,
    pub clicked: bool,
}

/// The root region of a simulation that has not stepped yet.
pub open spec fn start_region() -> Region {
    Region { x0: -1i64, y0: 0i64, size: 1i64 }
}

impl Simulation {
    /// The number of bodies.
    pub open spec fn len(&self) -> int {
        self.positions.x@.len() as int
    }

    pub open spec fn wf(&self) -> bool {
        &&& self.constants.wf()
        &&& self.positions.bounded(self.len(), POS_LIMIT as int)
        &&& self.velocities.bounded(self.len(), VEL_LIMIT as int)
        &&& self.accelerations.bounded(self.len(), ACC_LIMIT as int)
        &&& self.bh_tree.wf()
        &&& self.spawner.wf()
    }

    /// A simulation without bodies, or the first parameter it cannot run with.
    pub fn new_empty(constants: Constants, spawn_radius: i64, spawn_speed: i64) -> (r: Result<Simulation, ConfigError>)
        requires
            0 <= spawn_radius <= MAX_SPAWN_RADIUS,
            -MAX_SPAWN_SPEED <= spawn_speed <= MAX_SPAWN_SPEED,
        ensures
            r is Ok <==> constants.wf(),
            r is Err ==> Some(r->Err_0) == constants.first_error(),
            r is Ok ==> r->Ok_0.wf() && r->Ok_0.len() == 0 && r->Ok_0.constants == constants
                && !r->Ok_0.clicked,
            r is Ok ==> r->Ok_0.velocities.x@.len() == 0 && r->Ok_0.accelerations.x@.len() == 0,
            r is Ok ==> r->Ok_0.bh_tree.num_nodes == 1 && r->Ok_0.bh_tree.root == start_region()
                && r->Ok_0.bh_tree.live() == seq![empty_node(start_region())],
            r is Ok ==> r->Ok_0.spawner.spawned.x@.len() == 0 && r->Ok_0.spawner.spawn_radius
                == spawn_radius && r->Ok_0.spawner.spawn_speed == spawn_speed,
    {
        match constants.check() {
            Err(e) => Err(e),
            Ok(()) => {
                proof {
                    crate::region::lemma_unit_wf();
                }
                let root = Region { x0: -1, y0: 0, size: 1 };
                Ok(
                    Simulation {
                        positions: Vec2D { x: Vec::new(), y: Vec::new() },
                        velocities: Vec2D { x: Vec::new(), y: Vec::new() },
                        accelerations: Vec2D { x: Vec::new(), y: Vec::new() },
                        bh_tree: Tree::new(root),
                        constants,
                        spawner: Spawner::new_empty(spawn_radius, spawn_speed),
                        clicked: false,
                    },
                )
            },
        }
    }

    /// Appends `num` bodies at rest, each coordinate drawn uniformly from
    /// `-half_box .. half_box`.
    pub fn create(&mut self, num: usize, half_box: i64)
        requires
            old(self).wf(),
            1 <= half_box <= POS_LIMIT,
        ensures
            final(self).wf(),
            final(self).len() == old(self).len() + num,
            final(self).positions.x@.subrange(0, old(self).len()) == old(self).positions.x@,
            final(self).positions.y@.subrange(0, old(self).len()) == old(self).positions.y@,
            forall|i: int|
                old(self).len() <= i < final(self).len() ==> {
                    &&& -half_box <= #[trigger] final(self).positions.x@[i] < half_box
                    &&& -half_box <= final(self).positions.y@[i] < half_box
                    &&& final(self).velocities.x@[i] == 0
                    &&& final(self).velocities.y@[i] == 0
                    &&& final(self).accelerations.x@[i] == 0
                    &&& final(self).accelerations.y@[i] == 0
                },
            final(self).velocities.x@.subrange(0, old(self).len()) == old(self).velocities.x@,
            final(self).velocities.y@.subrange(0, old(self).len()) == old(self).velocities.y@,
            final(self).accelerations.x@.subrange(0, old(self).len()) == old(self).accelerations.x@,
            final(self).accelerations.y@.subrange(0, old(self).len()) == old(self).accelerations.y@,
            final(self).constants == old(self).constants,
    {
        let ghost n0 = self.len();
        let mut k: usize = 0;
        while k < num
            invariant
                k <= num,
                self.wf(),
                self.len() == n0 + k,
                n0 == old(self).len(),
                self.positions.x@.subrange(0, n0) == old(self).positions.x@,
                self.positions.y@.subrange(0, n0) == old(self).positions.y@,
                self.velocities.x@.subrange(0, n0) == old(self).velocities.x@,
                self.velocities.y@.subrange(0, n0) == old(self).velocities.y@,
                self.accelerations.x@.subrange(0, n0) == old(self).accelerations.x@,
                self.accelerations.y@.subrange(0, n0) == old(self).accelerations.y@,
                forall|i: int|
                    n0 <= i < self.len() ==> {
                        &&& -half_box <= #[trigger] self.positions.x@[i] < half_box
                        &&& -half_box <= self.positions.y@[i] < half_box
                        &&& self.velocities.x@[i] == 0
                        &&& self.velocities.y@[i] == 0
                        &&& self.accelerations.x@[i] == 0
                        &&& self.accelerations.y@[i] == 0
                    },
                self.constants == old(self).constants,
                1 <= half_box <= POS_LIMIT,
            decreases num - k,
        {
            let x = random_in(-half_box, half_box);
            let y = random_in(-half_box, half_box);
            self.positions.x.push(x);
            self.positions.y.push(y);
            self.velocities.x.push(0);
            self.velocities.y.push(0);
            self.accelerations.x.push(0);
            self.accelerations.y.push(0);
            k = k + 1;
            assert(self.positions.x@.subrange(0, n0) =~= old(self).positions.x@);
            assert(self.positions.y@.subrange(0, n0) =~= old(self).positions.y@);
            assert(self.velocities.x@.subrange(0, n0) =~= old(self).velocities.x@);
            assert(self.velocities.y@.subrange(0, n0) =~= old(self).velocities.y@);
            assert(self.accelerations.x@.subrange(0, n0) =~= old(self).accelerations.x@);
            assert(self.accelerations.y@.subrange(0, n0) =~= old(self).accelerations.y@);
        }
    }

    /// Appends one body; refused (returning false, nothing changed) when a
    /// coordinate or velocity component is beyond the world's limits.
    pub fn add_body(&mut self, x: i64, y: i64, vx: i64, vy: i64) -> (ok: bool)
        requires
            old(self).wf(),
        ensures
            final(self).wf(),
            ok == (-POS_LIMIT <= x <= POS_LIMIT && -POS_LIMIT <= y <= POS_LIMIT && -VEL_LIMIT <= vx
                <= VEL_LIMIT && -VEL_LIMIT <= vy <= VEL_LIMIT),
            ok ==> final(self).positions.x@ == old(self).positions.x@.push(x) && final(self).positions.y@
                == old(self).positions.y@.push(y) && final(self).velocities.x@
                == old(self).velocities.x@.push(vx) && final(self).velocities.y@
                == old(self).velocities.y@.push(vy) && final(self).accelerations.x@
                == old(self).accelerations.x@.push(0) && final(self).accelerations.y@
                == old(self).accelerations.y@.push(0),
            !ok ==> final(self).positions.x@ == old(self).positions.x@ && final(self).positions.y@
                == old(self).positions.y@ && final(self).velocities.x@ == old(self).velocities.x@
                && final(self).velocities.y@ == old(self).velocities.y@
                && final(self).accelerations.x@ == old(self).accelerations.x@
                && final(self).accelerations.y@ == old(self).accelerations.y@,
            final(self).constants == old(self).constants,
    {
        if !(-POS_LIMIT <= x && x <= POS_LIMIT && -POS_LIMIT <= y && y <= POS_LIMIT && -VEL_LIMIT
            <= vx && vx <= VEL_LIMIT && -VEL_LIMIT <= vy && vy <= VEL_LIMIT) {
            return false;
        }
        self.positions.x.push(x);
        self.positions.y.push(y);
        self.velocities.x.push(vx);
        self.velocities.y.push(vy);
        self.accelerations.x.push(0);
        self.accelerations.y.push(0);
        true
    }

    /// Starts a drag at `(x, y)`: while it lasts, `update` spawns bodies
    /// instead of stepping.
    pub fn on_click(&mut self, x: i64, y: i64)
        requires
            old(self).wf(),
        ensures
            final(self).wf(),
            final(self).clicked,
            final(self).spawner.spawning_mouse_x == sat(x as int, POS_LIMIT as int),
            final(self).spawner.spawning_mouse_y == sat(y as int, POS_LIMIT as int),
            final(self).spawner.spawned == old(self).spawner.spawned,
            final(self).positions == old(self).positions,
            final(self).velocities == old(self).velocities,
            final(self).constants == old(self).constants,
    {
        self.clicked = true;
        self.spawner.update_mouse_position(x, y);
        self.spawner.spawning_mouse_x = self.spawner.mouse_x;
        self.spawner.spawning_mouse_y = self.spawner.mouse_y;
    }

    /// Ends the drag at `(x, y)`: the spawned bodies join the simulation
    /// with the velocity of the drag.
    pub fn off_click(&mut self, x: i64, y: i64)
        requires
            old(self).wf(),
        ensures
            final(self).wf(),
            !final(self).clicked,
            final(self).len() == old(self).len() + old(self).spawner.spawned.x@.len(),
            final(self).positions.x@ == old(self).positions.x@ + old(self).spawner.spawned.x@,
            final(self).positions.y@ == old(self).positions.y@ + old(self).spawner.spawned.y@,
            final(self).velocities.x@ == old(self).velocities.x@ + Seq::new(
                old(self).spawner.spawned.x@.len(),
                |i: int|
                    drag_velocity(
                        old(self).spawner.spawning_mouse_x as int,
                        sat(x as int, POS_LIMIT as int),
                        old(self).spawner.spawn_speed as int,
                    ) as i64,
            ),
            final(self).velocities.y@ == old(self).velocities.y@ + Seq::new(
                old(self).spawner.spawned.x@.len(),
                |i: int|
                    drag_velocity(
                        old(self).spawner.spawning_mouse_y as int,
                        sat(y as int, POS_LIMIT as int),
                        old(self).spawner.spawn_speed as int,
                    ) as i64,
            ),
            final(self).accelerations.x@ == old(self).accelerations.x@ + Seq::new(
                old(self).spawner.spawned.x@.len(),
                |i: int| 0i64,
            ),
            final(self).accelerations.y@ == old(self).accelerations.y@ + Seq::new(
                old(self).spawner.spawned.x@.len(),
                |i: int| 0i64,
            ),
            final(self).spawner.spawned.x@.len() == 0,
            final(self).constants == old(self).constants,
    {
        self.clicked = false;
        self.spawner.add_spawned_bodies_to_simulation(
            x,
            y,
            &mut self.positions,
            &mut self.velocities,
            &mut self.accelerations,
        );
    }

    /// One tick: while a drag is on, spawns bodies at the pointer and
    /// leaves the bodies alone; otherwise runs one `step`.
    pub fn update(&mut self) -> (r: Result<(), BuildError>)
        requires
            old(self).wf(),
        ensures
            final(self).wf(),
            final(self).constants == old(self).constants,
            final(self).len() == old(self).len(),
            final(self).clicked == old(self).clicked,
            old(self).clicked ==> {
                &&& final(self).accelerations.x@ == old(self).accelerations.x@
                &&& final(self).accelerations.y@ == old(self).accelerations.y@
                &&& final(self).bh_tree.nodes@ == old(self).bh_tree.nodes@
                &&& final(self).bh_tree.num_nodes == old(self).bh_tree.num_nodes
                &&& final(self).bh_tree.root == old(self).bh_tree.root
                &&& final(self).spawner.spawned.x@.subrange(0, old(self).spawner.spawned.x@.len() as int)
                    == old(self).spawner.spawned.x@
                &&& final(self).spawner.spawned.y@.subrange(0, old(self).spawner.spawned.x@.len() as int)
                    == old(self).spawner.spawned.y@
                &&& forall|i: int|
                    old(self).spawner.spawned.x@.len() <= i < final(self).spawner.spawned.x@.len() ==> {
                        &&& scattered(
                            #[trigger] final(self).spawner.spawned.x@[i] as int,
                            old(self).spawner.mouse_x as int,
                            old(self).spawner.spawn_radius as int,
                        )
                        &&& scattered(
                            final(self).spawner.spawned.y@[i] as int,
                            old(self).spawner.mouse_y as int,
                            old(self).spawner.spawn_radius as int,
                        )
                    }
            },
            old(self).clicked ==> r is Ok && final(self).positions == old(self).positions
                && final(self).velocities == old(self).velocities
                && final(self).spawner.spawned.x@.len() == old(self).spawner.spawned.x@.len()
                + crate::spawner::BODIES_PER_SPAWN,
            !old(self).clicked && r is Err ==> r == Err::<(), BuildError>(BuildError::Degenerate) && has_duplicate(
                old(self).positions.x@,
                old(self).positions.y@,
                old(self).len(),
            ) || r == Err::<(), BuildError>(BuildError::TooManyBodies) && old(self).len() > MAX_BODIES,
            !old(self).clicked && old(self).len() <= MAX_BODIES && !has_duplicate(
                old(self).positions.x@,
                old(self).positions.y@,
                old(self).len(),
            ) ==> r is Ok,
            !old(self).clicked && r is Ok ==> forall|i: int|
                0 <= i < old(self).len() ==> #[trigger] body_after_step(
                    final(self).bh_tree.live(),
                    old(self).constants,
                    old(self).positions.x@[i] as int,
                    old(self).positions.y@[i] as int,
                    old(self).velocities.x@[i] as int,
                    old(self).velocities.y@[i] as int,
                ) == (
                    final(self).accelerations.x@[i] as int,
                    final(self).accelerations.y@[i] as int,
                    final(self).velocities.x@[i] as int,
                    final(self).velocities.y@[i] as int,
                    final(self).positions.x@[i] as int,
                    final(self).positions.y@[i] as int,
                ),
            !old(self).clicked ==> covers_exactly(
                final(self).bh_tree.root,
                old(self).positions.x@,
                old(self).positions.y@,
                old(self).len(),
            ),
            !old(self).clicked && r is Ok ==> build_spec(
                final(self).bh_tree.root,
                old(self).positions.x@,
                old(self).positions.y@,
                old(self).len() as nat,
            ) == Some(final(self).bh_tree.live()),
            !old(self).clicked && old(self).len() <= MAX_BODIES && has_duplicate(
                old(self).positions.x@,
                old(self).positions.y@,
                old(self).len(),
            ) ==> r == Err::<(), BuildError>(BuildError::Degenerate),
            !old(self).clicked && r is Err ==> final(self).positions.x@ == old(self).positions.x@
                && final(self).positions.y@ == old(self).positions.y@ && final(self).velocities.x@
                == old(self).velocities.x@ && final(self).velocities.y@ == old(self).velocities.y@,
    {
        if self.clicked {
            self.spawner.spawn_body();
            return Ok(());
        }
        let r = step(
            &mut self.positions,
            &mut self.velocities,
            &mut self.accelerations,
            &mut self.bh_tree,
            &self.constants,
        );
        proof {
            if r is Err {
                match r->Err_0 {
                    BuildError::TooManyBodies => {},
                    BuildError::OutOfRegion => {},
                    BuildError::Degenerate => {},
                }
            }
        }
        r
    }
}

} // verus!
