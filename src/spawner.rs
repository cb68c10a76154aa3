//! Interactive spawning: bodies scattered around the pointer while it is
//! held, released into the simulation with the velocity of the drag.
use vstd::prelude::*;
use crate::fixed::{div_toward_zero, div_trunc, ONE};
use crate::physics::{sat, Vec2D, ACC_LIMIT, POS_LIMIT, VEL_LIMIT};
use crate::random::random_in;

verus! {

/// Bodies added per spawning tick.
pub const BODIES_PER_SPAWN: usize = 2;

/// Largest spawn scatter and largest spawn speed factor.
pub const MAX_SPAWN_RADIUS: i64 = 1099511627776;
pub const MAX_SPAWN_SPEED: i64 = 16777216;

/// Spawning state, in world coordinates. `spawn_speed` is the velocity per
/// unit of drag, in fixed point.
pub struct Spawner {
    pub mouse_x: i64,
    pub mouse_y: i64,
    pub spawning_mouse_x: i64,
    pub spawning_mouse_y: i64,
    pub spawned: Vec2D,
    pub spawn_radius: i64,
    pub spawn_speed: i64,
}

/// Velocity given to released bodies for a drag from `from` to `to`.
pub open spec fn drag_velocity(from: int, to: int, speed: int) -> int {
    sat(div_trunc((to - from) * speed, ONE as int), VEL_LIMIT as int)
}

impl Spawner {
    pub open spec fn wf(&self) -> bool {
        &&& -POS_LIMIT <= self.mouse_x <= POS_LIMIT
        &&& -POS_LIMIT <= self.mouse_y <= POS_LIMIT
        &&& -POS_LIMIT <= self.spawning_mouse_x <= POS_LIMIT
        &&& -POS_LIMIT <= self.spawning_mouse_y <= POS_LIMIT
        &&& self.spawned.bounded(self.spawned.x@.len() as int, POS_LIMIT as int)
        &&& 0 <= self.spawn_radius <= MAX_SPAWN_RADIUS
        &&& -MAX_SPAWN_SPEED <= self.spawn_speed <= MAX_SPAWN_SPEED
    }

    /// A spawner at the origin with nothing pending.
    pub fn new_empty(spawn_radius: i64, spawn_speed: i64) -> (r: Spawner)
        requires
            0 <= spawn_radius <= MAX_SPAWN_RADIUS,
            -MAX_SPAWN_SPEED <= spawn_speed <= MAX_SPAWN_SPEED,
        ensures
            r.wf(),
            r.spawned.x@.len() == 0,
            r.spawn_radius == spawn_radius,
            r.spawn_speed == spawn_speed,
            r.mouse_x == 0 && r.mouse_y == 0,
    {
        Spawner {
            mouse_x: 0,
            mouse_y: 0,
            spawning_mouse_x: 0,
            spawning_mouse_y: 0,
            spawned: Vec2D { x: Vec::new(), y: Vec::new() },
            spawn_radius,
            spawn_speed,
        }
    }

    /// Moves the pointer, clipped to the world.
    pub fn update_mouse_position(&mut self, x: i64, y: i64)
        requires
            old(self).wf(),
        ensures
            final(self).wf(),
            final(self).mouse_x == sat(x as int, POS_LIMIT as int),
            final(self).mouse_y == sat(y as int, POS_LIMIT as int),
            final(self).spawned == old(self).spawned,
            final(self).spawning_mouse_x == old(self).spawning_mouse_x,
            final(self).spawning_mouse_y == old(self).spawning_mouse_y,
            final(self).spawn_radius == old(self).spawn_radius,
            final(self).spawn_speed == old(self).spawn_speed,
    {
        self.mouse_x = clip(x, POS_LIMIT);
        self.mouse_y = clip(y, POS_LIMIT);
    }

    /// Adds `BODIES_PER_SPAWN` pending bodies around the pointer, each
    /// offset on both axes by a random amount in
    /// `-(spawn_radius / 2) .. spawn_radius - spawn_radius / 2`, clipped to the world.
    pub fn spawn_body(&mut self)
        requires
            old(self).wf(),
        ensures
            final(self).wf(),
            final(self).spawned.x@.len() == old(self).spawned.x@.len() + BODIES_PER_SPAWN,
            final(self).spawned.x@.subrange(0, old(self).spawned.x@.len() as int) == old(self).spawned.x@,
            final(self).spawned.y@.subrange(0, old(self).spawned.x@.len() as int) == old(self).spawned.y@,
            forall|i: int|
                old(self).spawned.x@.len() <= i < final(self).spawned.x@.len() ==> {
                    &&& scattered(#[trigger] final(self).spawned.x@[i] as int, old(self).mouse_x as int, old(self).spawn_radius as int)
                    &&& scattered(final(self).spawned.y@[i] as int, old(self).mouse_y as int, old(self).spawn_radius as int)
                },
            final(self).mouse_x == old(self).mouse_x,
            final(self).mouse_y == old(self).mouse_y,
            final(self).spawning_mouse_x == old(self).spawning_mouse_x,
            final(self).spawning_mouse_y == old(self).spawning_mouse_y,
            final(self).spawn_radius == old(self).spawn_radius,
            final(self).spawn_speed == old(self).spawn_speed,
    {
        let ghost n0 = self.spawned.x@.len();
        let mut k: usize = 0;
        while k < BODIES_PER_SPAWN
            invariant
                k <= BODIES_PER_SPAWN,
                self.wf(),
                self.spawned.x@.len() == n0 + k,
                self.spawned.x@.subrange(0, n0 as int) == old(self).spawned.x@,
                self.spawned.y@.subrange(0, n0 as int) == old(self).spawned.y@,
                n0 == old(self).spawned.x@.len(),
                forall|i: int|
                    n0 <= i < self.spawned.x@.len() ==> {
                        &&& scattered(#[trigger] self.spawned.x@[i] as int, old(self).mouse_x as int, old(self).spawn_radius as int)
                        &&& scattered(self.spawned.y@[i] as int, old(self).mouse_y as int, old(self).spawn_radius as int)
                    },
                self.mouse_x == old(self).mouse_x,
                self.mouse_y == old(self).mouse_y,
                self.spawning_mouse_x == old(self).spawning_mouse_x,
                self.spawning_mouse_y == old(self).spawning_mouse_y,
                self.spawn_radius == old(self).spawn_radius,
                self.spawn_speed == old(self).spawn_speed,
            decreases BODIES_PER_SPAWN - k,
        {
            let sx = scatter(self.mouse_x, self.spawn_radius);
            let sy = scatter(self.mouse_y, self.spawn_radius);
            self.spawned.x.push(sx);
            self.spawned.y.push(sy);
            k = k + 1;
            assert(self.spawned.x@.subrange(0, n0 as int) =~= old(self).spawned.x@);
            assert(self.spawned.y@.subrange(0, n0 as int) =~= old(self).spawned.y@);
        }
    }

    /// Releases the pending bodies into the simulation arrays with the
    /// velocity of the drag from the spawning point to `(mouse_x, mouse_y)`,
    /// and zero acceleration; nothing stays pending.
    pub fn add_spawned_bodies_to_simulation(
        &mut self,
        mouse_x: i64,
        mouse_y: i64,
        positions: &mut Vec2D,
        velocities: &mut Vec2D,
        accelerations: &mut Vec2D,
    )
        requires
            old(self).wf(),
            old(positions).bounded(old(positions).x@.len() as int, POS_LIMIT as int),
            old(velocities).bounded(old(positions).x@.len() as int, VEL_LIMIT as int),
            old(accelerations).bounded(old(positions).x@.len() as int, ACC_LIMIT as int),
        ensures
            final(self).wf(),
            final(self).spawned.x@.len() == 0,
            final(positions).x@ == old(positions).x@ + old(self).spawned.x@,
            final(positions).y@ == old(positions).y@ + old(self).spawned.y@,
            final(velocities).x@ == old(velocities).x@ + Seq::new(
                old(self).spawned.x@.len(),
                |i: int| drag_velocity(old(self).spawning_mouse_x as int, sat(mouse_x as int, POS_LIMIT as int), old(self).spawn_speed as int) as i64,
            ),
            final(velocities).y@ == old(velocities).y@ + Seq::new(
                old(self).spawned.x@.len(),
                |i: int| drag_velocity(old(self).spawning_mouse_y as int, sat(mouse_y as int, POS_LIMIT as int), old(self).spawn_speed as int) as i64,
            ),
            final(accelerations).x@ == old(accelerations).x@ + Seq::new(old(self).spawned.x@.len(), |i: int| 0i64),
            final(accelerations).y@ == old(accelerations).y@ + Seq::new(old(self).spawned.x@.len(), |i: int| 0i64),
            final(positions).bounded(final(positions).x@.len() as int, POS_LIMIT as int),
            final(velocities).bounded(final(positions).x@.len() as int, VEL_LIMIT as int),
            final(accelerations).bounded(final(positions).x@.len() as int, ACC_LIMIT as int),
            final(self).mouse_x == old(self).mouse_x,
            final(self).mouse_y == old(self).mouse_y,
            final(self).spawn_radius == old(self).spawn_radius,
            final(self).spawn_speed == old(self).spawn_speed,
    {
        let to_x = clip(mouse_x, POS_LIMIT);
        let to_y = clip(mouse_y, POS_LIMIT);
        let vx = drag(self.spawning_mouse_x, to_x, self.spawn_speed);
        let vy = drag(self.spawning_mouse_y, to_y, self.spawn_speed);
        let ghost pos0 = *positions;
        let ghost vel0 = *velocities;
        let ghost acc0 = *accelerations;
        let m = self.spawned.x.len();
        let n0 = positions.x.len();
        let mut i: usize = 0;
        while i < m
            invariant
                i <= m,
                m == self.spawned.x@.len(),
                self.wf(),
                self.spawned == old(self).spawned,
                n0 == pos0.x@.len(),
                pos0 == *old(positions),
                vel0 == *old(velocities),
                acc0 == *old(accelerations),
                positions.x@ == pos0.x@ + self.spawned.x@.subrange(0, i as int),
                positions.y@ == pos0.y@ + self.spawned.y@.subrange(0, i as int),
                velocities.x@ == vel0.x@ + Seq::new(i as nat, |k: int| vx),
                velocities.y@ == vel0.y@ + Seq::new(i as nat, |k: int| vy),
                accelerations.x@ == acc0.x@ + Seq::new(i as nat, |k: int| 0i64),
                accelerations.y@ == acc0.y@ + Seq::new(i as nat, |k: int| 0i64),
            decreases m - i,
        {
            positions.x.push(self.spawned.x[i]);
            positions.y.push(self.spawned.y[i]);
            velocities.x.push(vx);
            velocities.y.push(vy);
            accelerations.x.push(0);
            accelerations.y.push(0);
            i = i + 1;
            assert(positions.x@ =~= pos0.x@ + self.spawned.x@.subrange(0, i as int));
            assert(positions.y@ =~= pos0.y@ + self.spawned.y@.subrange(0, i as int));
            assert(velocities.x@ =~= vel0.x@ + Seq::new(i as nat, |k: int| vx));
            assert(velocities.y@ =~= vel0.y@ + Seq::new(i as nat, |k: int| vy));
            assert(accelerations.x@ =~= acc0.x@ + Seq::new(i as nat, |k: int| 0i64));
            assert(accelerations.y@ =~= acc0.y@ + Seq::new(i as nat, |k: int| 0i64));
        }
        assert(self.spawned.x@.subrange(0, m as int) =~= self.spawned.x@);
        assert(self.spawned.y@.subrange(0, m as int) =~= self.spawned.y@);
        assert(velocities.x@ =~= vel0.x@ + Seq::new(m as nat, |k: int| drag_velocity(old(self).spawning_mouse_x as int, sat(mouse_x as int, POS_LIMIT as int), old(self).spawn_speed as int) as i64));
        assert(velocities.y@ =~= vel0.y@ + Seq::new(m as nat, |k: int| drag_velocity(old(self).spawning_mouse_y as int, sat(mouse_y as int, POS_LIMIT as int), old(self).spawn_speed as int) as i64));
        self.spawned.x.clear();
        self.spawned.y.clear();
        let ghost n = positions.x@.len();
        assert forall|k: int| 0 <= k < n implies -POS_LIMIT <= #[trigger] positions.x@[k] <= POS_LIMIT by {
            if k >= n0 {
                assert(positions.x@[k] == old(self).spawned.x@[k - n0]);
            }
        }
        assert forall|k: int| 0 <= k < n implies -POS_LIMIT <= #[trigger] positions.y@[k] <= POS_LIMIT by {
            if k >= n0 {
                assert(positions.y@[k] == old(self).spawned.y@[k - n0]);
            }
        }
        assert forall|k: int| 0 <= k < n implies -VEL_LIMIT <= #[trigger] velocities.x@[k] <= VEL_LIMIT by {
            if k >= n0 {
                assert(velocities.x@[k] == vx);
            }
        }
        assert forall|k: int| 0 <= k < n implies -VEL_LIMIT <= #[trigger] velocities.y@[k] <= VEL_LIMIT by {
            if k >= n0 {
                assert(velocities.y@[k] == vy);
            }
        }
        assert forall|k: int| 0 <= k < n implies -ACC_LIMIT <= #[trigger] accelerations.x@[k] <= ACC_LIMIT by {
            if k >= n0 {
                assert(accelerations.x@[k] == 0);
            }
        }
        assert forall|k: int| 0 <= k < n implies -ACC_LIMIT <= #[trigger] accelerations.y@[k] <= ACC_LIMIT by {
            if k >= n0 {
                assert(accelerations.y@[k] == 0);
            }
        }
    }
}

/// `c` plus an offset in `-(radius / 2) .. radius - radius / 2`, clipped to the world.
pub open spec fn scattered(v: int, c: int, radius: int) -> bool {
    &&& -POS_LIMIT <= v <= POS_LIMIT
    &&& radius == 0 ==> v == c
    &&& radius > 0 ==> exists|o: int|
        -(radius / 2) <= o < radius - radius / 2 && v == #[trigger] sat(c + o, POS_LIMIT as int)
}

fn clip(v: i64, lim: i64) -> (r: i64)
    requires
        lim >= 0,
    ensures
        r == sat(v as int, lim as int),
{
    if v > lim {
        lim
    } else if v < -lim {
        -lim
    } else {
        v
    }
}

/// A random point near `c`; see `scattered`.
fn scatter(c: i64, radius: i64) -> (r: i64)
    requires
        -POS_LIMIT <= c <= POS_LIMIT,
        0 <= radius <= MAX_SPAWN_RADIUS,
    ensures
        scattered(r as int, c as int, radius as int),
{
    if radius == 0 {
        return c;
    }
    let lo = -(radius / 2);
    let hi = radius - radius / 2;
    let o = random_in(lo, hi);
    let r = clip(c + o, POS_LIMIT);
    assert(-(radius / 2) <= o < radius - radius / 2 && r == sat(c + o, POS_LIMIT as int));
    r
}

fn drag(from: i64, to: i64, speed: i64) -> (r: i64)
    requires
        -POS_LIMIT <= from <= POS_LIMIT,
        -POS_LIMIT <= to <= POS_LIMIT,
        -MAX_SPAWN_SPEED <= speed <= MAX_SPAWN_SPEED,
    ensures
        r == drag_velocity(from as int, to as int, speed as int),
        -VEL_LIMIT <= r <= VEL_LIMIT,
{
    assert(-0x1_0000_0000_0000_0000_00 <= (to - from) * speed <= 0x1_0000_0000_0000_0000_00) by (nonlinear_arith)
        requires
            -0x200_0000_0000 <= to - from <= 0x200_0000_0000,
            -0x100_0000 <= speed <= 0x100_0000,
    ;
    let q = div_toward_zero(((to as i128) - (from as i128)) * (speed as i128), ONE);
    if q > VEL_LIMIT as i128 {
        VEL_LIMIT
    } else if q < -(VEL_LIMIT as i128) {
        -VEL_LIMIT
    } else {
        q as i64
    }
}

} // verus!
