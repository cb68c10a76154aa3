//! One simulation step: rebuild the tree, evaluate every body's
//! acceleration on it, then integrate with semi-implicit Euler.
use vstd::prelude::*;
use crate::arena::{Node, Tree, MAX_NODES, TREE_GROWTH_INCREMENT};
use crate::builder::{all_inside, build_spec, built_upto, has_duplicate, is_built, lemma_built_upto_is_built, BuildError, MAX_BODIES};
use crate::fixed::{div_toward_zero, div_trunc, int_sqrt, isqrt, lemma_div_trunc_bound, ONE};
use crate::force::{add_node_acceleration, node_accel, ForceParams, ONE_CUBED};
use crate::region::{is_pow2, Region, COORD_LIMIT};

verus! {

/// Largest coordinate magnitude of a body.
pub const POS_LIMIT: i64 = 1099511627775;

/// Largest velocity component magnitude.
pub const VEL_LIMIT: i64 = 1099511627776;

/// Largest stored acceleration component magnitude; anything beyond it
/// already saturates the velocity within one step.
pub const ACC_LIMIT: i64 = 4611686018427387904;

/// Largest time step and largest gravitational constant magnitude.
pub const MAX_DT: i64 = 16777216;
pub const MAX_GRAVITY: i64 = 16777216;

/// A pair of coordinate arrays, one entry per body.
pub struct Vec2D {
    pub x: Vec<i64>,
    pub y: Vec<i64>,
}

impl Vec2D {
    /// `n` zero vectors.
    pub fn new(num_bodies: usize) -> (r: Vec2D)
        ensures
            r.x@ == Seq::new(num_bodies as nat, |i: int| 0i64),
            r.y@ == Seq::new(num_bodies as nat, |i: int| 0i64),
    {
        let mut x: Vec<i64> = Vec::new();
        let mut y: Vec<i64> = Vec::new();
        let mut i: usize = 0;
        while i < num_bodies
            invariant
                i <= num_bodies,
                x@ == Seq::new(i as nat, |k: int| 0i64),
                y@ == Seq::new(i as nat, |k: int| 0i64),
            decreases num_bodies - i,
        {
            x.push(0);
            y.push(0);
            i = i + 1;
            assert(x@ =~= Seq::new(i as nat, |k: int| 0i64));
            assert(y@ =~= Seq::new(i as nat, |k: int| 0i64));
        }
        Vec2D { x, y }
    }

    /// Both arrays have `n` entries, each of magnitude at most `lim`.
    pub open spec fn bounded(&self, n: int, lim: int) -> bool {
        &&& self.x@.len() == n
        &&& self.y@.len() == n
        &&& forall|i: int| 0 <= i < n ==> -lim <= #[trigger] self.x@[i] <= lim
        &&& forall|i: int| 0 <= i < n ==> -lim <= #[trigger] self.y@[i] <= lim
    }
}

/// Simulation parameters in fixed point: `delta_t` and `gravity` in units
/// of `1 / ONE`; `speed_limit` 0 turns the velocity clamp off.
#[derive(Clone, Copy, Debug, PartialEq, Eq, Structural)]
pub struct Constants {
    pub num_bodies: usize,
    pub num_steps: usize,
    pub write_interval: usize,
    pub delta_t: i64,
    pub softening: u32,
    pub gravity: i64,
    pub log_energy_conservation: bool,
    pub theta: u32,
    pub speed_limit: i64,
}

/// A parameter the simulation cannot run with.
#[derive(Clone, Copy, Debug, PartialEq, Eq, Structural)]
pub enum ConfigError {
    TooManyBodies,
    BadTimeStep,
    BadGravity,
    BadWriteInterval,
    BadSpeedLimit,
}

impl Constants {
    pub open spec fn wf(&self) -> bool {
        &&& self.num_bodies <= MAX_BODIES
        &&& 1 <= self.delta_t <= MAX_DT
        &&& -MAX_GRAVITY <= self.gravity <= MAX_GRAVITY
        &&& self.write_interval >= 1
        &&& 0 <= self.speed_limit <= VEL_LIMIT
    }

    pub open spec fn first_error(&self) -> Option<ConfigError> {
        if self.num_bodies > MAX_BODIES {
            Some(ConfigError::TooManyBodies)
        } else if !(1 <= self.delta_t <= MAX_DT) {
            Some(ConfigError::BadTimeStep)
        } else if !(-MAX_GRAVITY <= self.gravity <= MAX_GRAVITY) {
            Some(ConfigError::BadGravity)
        } else if self.write_interval < 1 {
            Some(ConfigError::BadWriteInterval)
        } else if !(0 <= self.speed_limit <= VEL_LIMIT) {
            Some(ConfigError::BadSpeedLimit)
        } else {
            None
        }
    }

    /// Checks every parameter, reporting the first that is out of range.
    pub fn check(&self) -> (r: Result<(), ConfigError>)
        ensures
            r is Ok <==> self.wf(),
            r is Err ==> Some(r->Err_0) == self.first_error(),
            r is Ok ==> self.first_error() is None,
    {
        if self.num_bodies > MAX_BODIES {
            Err(ConfigError::TooManyBodies)
        } else if !(1 <= self.delta_t && self.delta_t <= MAX_DT) {
            Err(ConfigError::BadTimeStep)
        } else if !(-MAX_GRAVITY <= self.gravity && self.gravity <= MAX_GRAVITY) {
            Err(ConfigError::BadGravity)
        } else if self.write_interval < 1 {
            Err(ConfigError::BadWriteInterval)
        } else if !(0 <= self.speed_limit && self.speed_limit <= VEL_LIMIT) {
            Err(ConfigError::BadSpeedLimit)
        } else {
            Ok(())
        }
    }

    pub open spec fn force_params(&self) -> ForceParams {
        ForceParams { theta: self.theta, softening: self.softening }
    }
}

/// `v` clipped to `[-lim, lim]`.
pub open spec fn sat(v: int, lim: int) -> int {
    if v > lim {
        lim
    } else if v < -lim {
        -lim
    } else {
        v
    }
}

/// A unit-mass acceleration scaled by the gravitational constant.
pub open spec fn scaled_accel(a: int, gravity: int) -> int {
    sat(div_trunc(a * gravity, ONE as int), ACC_LIMIT as int)
}

/// `v + a * dt`.
pub open spec fn kick(v: int, a: int, dt: int) -> int {
    sat(v + div_trunc(a * dt, ONE as int), VEL_LIMIT as int)
}

/// The velocity clamp: a vector longer than `limit` is scaled back to that
/// length, keeping its direction; a limit of 0 leaves it alone.
pub open spec fn clamp_speed(vx: int, vy: int, limit: int) -> (int, int) {
    if limit == 0 || vx * vx + vy * vy <= limit * limit {
        (vx, vy)
    } else {
        let s = int_sqrt(vx * vx + vy * vy);
        (div_trunc(vx * limit, s), div_trunc(vy * limit, s))
    }
}

/// `x + v * dt`.
pub open spec fn drift(x: int, v: int, dt: int) -> int {
    sat(x + div_trunc(v * dt, ONE as int), POS_LIMIT as int)
}

/// The smallest power of two that is at least `n`, for `1 <= n <= 2^41`.
fn pow2_at_least(n: i64) -> (s: i64)
    requires
        1 <= n <= 2 * COORD_LIMIT,
    ensures
        is_pow2(s as int),
        n <= s <= 2 * COORD_LIMIT,
        s == 1 || s / 2 < n,
{
    let mut s: i64 = 1;
    proof {
        reveal_with_fuel(is_pow2, 1);
        reveal_with_fuel(is_pow2, 42);
        assert(is_pow2(2 * COORD_LIMIT));
    }
    while s < n
        invariant
            is_pow2(s as int),
            1 <= s <= 2 * COORD_LIMIT,
            n <= 2 * COORD_LIMIT,
            s == 1 || s / 2 < n,
            is_pow2(2 * COORD_LIMIT),
        decreases 2 * COORD_LIMIT - s,
    {
        proof {
            lemma_pow2_double_le(s as int, 2 * COORD_LIMIT);
            assert(is_pow2(2 * s)) by {
                reveal_with_fuel(is_pow2, 2);
                assert((2 * s) / 2 == s);
            }
        }
        s = s * 2;
    }
    s
}

/// Of two powers of two, the smaller one doubled is at most the larger.
proof fn lemma_pow2_double_le(s: int, t: int)
    requires
        is_pow2(s),
        is_pow2(t),
        s < t,
    ensures
        2 * s <= t,
    decreases t,
{
    reveal_with_fuel(is_pow2, 1);
    if s > 1 {
        lemma_pow2_double_le(s / 2, t / 2);
    }
}

/// Least and greatest of the first `n` entries.
pub open spec fn seq_min(s: Seq<i64>, n: int) -> int
    decreases n,
{
    if n <= 1 {
        s[0] as int
    } else if (s[n - 1] as int) < seq_min(s, n - 1) {
        s[n - 1] as int
    } else {
        seq_min(s, n - 1)
    }
}

pub open spec fn seq_max(s: Seq<i64>, n: int) -> int
    decreases n,
{
    if n <= 1 {
        s[0] as int
    } else if (s[n - 1] as int) > seq_max(s, n - 1) {
        s[n - 1] as int
    } else {
        seq_max(s, n - 1)
    }
}

/// The larger side of the bodies' bounding box.
pub open spec fn spread(x: Seq<i64>, y: Seq<i64>, n: int) -> int {
    let sx = seq_max(x, n) - seq_min(x, n);
    let sy = seq_max(y, n) - seq_min(y, n);
    if sx > sy { sx } else { sy }
}

/// `s` is the smallest power of two that is at least `n`.
pub open spec fn least_pow2_at_least(s: int, n: int) -> bool {
    is_pow2(s) && n <= s && (s == 1 || s / 2 < n)
}

/// The root region of the bodies: its side is the smallest power of two
/// above their spread, its lower left corner just below and left of their
/// bounding box, moved in where that would leave the coordinate limits.
pub open spec fn covers_exactly(r: Region, x: Seq<i64>, y: Seq<i64>, n: int) -> bool {
    if n == 0 {
        r == (Region { x0: -1i64, y0: 0i64, size: 1i64 })
    } else {
        &&& least_pow2_at_least(r.size as int, spread(x, y, n) + 1)
        &&& r.x0 == (if seq_min(x, n) - 1 < COORD_LIMIT - r.size {
            seq_min(x, n) - 1
        } else {
            COORD_LIMIT - r.size
        })
        &&& r.y0 == (if seq_min(y, n) < COORD_LIMIT - r.size {
            seq_min(y, n)
        } else {
            COORD_LIMIT - r.size
        })
    }
}

/// A root region for the tree: a power-of-two square that holds every body;
/// see `covers_exactly`.
pub fn covering_region(x: &Vec<i64>, y: &Vec<i64>) -> (r: Region)
    requires
        x.len() == y.len(),
        forall|i: int| 0 <= i < x.len() ==> -POS_LIMIT <= #[trigger] x@[i] <= POS_LIMIT,
        forall|i: int| 0 <= i < y.len() ==> -POS_LIMIT <= #[trigger] y@[i] <= POS_LIMIT,
    ensures
        r.wf(),
        all_inside(r, x@, y@, x.len() as int),
        covers_exactly(r, x@, y@, x.len() as int),
{
    let n = x.len();
    if n == 0 {
        proof {
            reveal_with_fuel(is_pow2, 1);
        }
        return Region { x0: -1, y0: 0, size: 1 };
    }
    let mut min_x = x[0];
    let mut max_x = x[0];
    let mut min_y = y[0];
    let mut max_y = y[0];
    let mut i: usize = 1;
    while i < n
        invariant
            1 <= i <= n,
            n == x.len(),
            x.len() == y.len(),
            forall|k: int| 0 <= k < x.len() ==> -POS_LIMIT <= #[trigger] x@[k] <= POS_LIMIT,
            forall|k: int| 0 <= k < y.len() ==> -POS_LIMIT <= #[trigger] y@[k] <= POS_LIMIT,
            -POS_LIMIT <= min_x <= max_x <= POS_LIMIT,
            -POS_LIMIT <= min_y <= max_y <= POS_LIMIT,
            forall|k: int| 0 <= k < i ==> min_x <= #[trigger] x@[k] <= max_x,
            forall|k: int| 0 <= k < i ==> min_y <= #[trigger] y@[k] <= max_y,
            min_x == seq_min(x@, i as int),
            max_x == seq_max(x@, i as int),
            min_y == seq_min(y@, i as int),
            max_y == seq_max(y@, i as int),
        decreases n - i,
    {
        if x[i] < min_x {
            min_x = x[i];
        }
        if x[i] > max_x {
            max_x = x[i];
        }
        if y[i] < min_y {
            min_y = y[i];
        }
        if y[i] > max_y {
            max_y = y[i];
        }
        i = i + 1;
    }
    let spread = if max_x - min_x > max_y - min_y { max_x - min_x } else { max_y - min_y };
    let size = pow2_at_least(spread + 1);
    let x0 = if min_x - 1 < COORD_LIMIT - size { min_x - 1 } else { COORD_LIMIT - size };
    let y0 = if min_y < COORD_LIMIT - size { min_y } else { COORD_LIMIT - size };
    let r = Region { x0, y0, size };
    assert forall|k: int| 0 <= k < n implies r.holds(x@[k] as int, y@[k] as int) by {
        assert(min_x <= x@[k] <= max_x);
        assert(min_y <= y@[k] <= max_y);
    }
    r
}

/// `scaled_accel` with its bound: a stored acceleration fits `ACC_LIMIT`.
fn scale_accel(a: i128, gravity: i64) -> (r: i64)
    requires
        -(MAX_BODIES * ONE_CUBED) <= a <= MAX_BODIES * ONE_CUBED,
        -MAX_GRAVITY <= gravity <= MAX_GRAVITY,
    ensures
        r == scaled_accel(a as int, gravity as int),
{
    assert(-0x1_0000_0000_0000_0000_0000_0000 <= a * gravity <= 0x1_0000_0000_0000_0000_0000_0000) by (nonlinear_arith)
        requires
            -0x1_0000_0000_0000_0000_00 <= a <= 0x1_0000_0000_0000_0000_00,
            -0x100_0000 <= gravity <= 0x100_0000,
    ;
    let q = div_toward_zero(a * (gravity as i128), ONE);
    if q > ACC_LIMIT as i128 {
        ACC_LIMIT
    } else if q < -(ACC_LIMIT as i128) {
        -ACC_LIMIT
    } else {
        q as i64
    }
}

/// `kick`: the velocity after one step of acceleration, saturated.
fn kick_velocity(v: i64, a: i64, dt: i64) -> (r: i64)
    requires
        -VEL_LIMIT <= v <= VEL_LIMIT,
        -ACC_LIMIT <= a <= ACC_LIMIT,
        1 <= dt <= MAX_DT,
    ensures
        r == kick(v as int, a as int, dt as int),
        -VEL_LIMIT <= r <= VEL_LIMIT,
{
    assert(-0x100_0000_0000_0000_0000_0000 <= a * dt <= 0x100_0000_0000_0000_0000_0000) by (nonlinear_arith)
        requires
            -0x4000_0000_0000_0000 <= a <= 0x4000_0000_0000_0000,
            1 <= dt <= 0x100_0000,
    ;
    proof {
        lemma_div_trunc_bound(a * dt, ONE as int, 0x100_0000_0000_0000_0000_0000);
    }
    let w = v as i128 + div_toward_zero((a as i128) * (dt as i128), ONE);
    if w > VEL_LIMIT as i128 {
        VEL_LIMIT
    } else if w < -(VEL_LIMIT as i128) {
        -VEL_LIMIT
    } else {
        w as i64
    }
}

/// `drift`: the position after one step at velocity `v`, saturated.
fn drift_position(x: i64, v: i64, dt: i64) -> (r: i64)
    requires
        -POS_LIMIT <= x <= POS_LIMIT,
        -VEL_LIMIT <= v <= VEL_LIMIT,
        1 <= dt <= MAX_DT,
    ensures
        r == drift(x as int, v as int, dt as int),
        -POS_LIMIT <= r <= POS_LIMIT,
{
    assert(-0x1_0000_0000_0000_0000 <= v * dt <= 0x1_0000_0000_0000_0000) by (nonlinear_arith)
        requires
            -0x100_0000_0000 <= v <= 0x100_0000_0000,
            1 <= dt <= 0x100_0000,
    ;
    proof {
        lemma_div_trunc_bound(v * dt, ONE as int, 0x1_0000_0000_0000_0000);
    }
    let w = x as i128 + div_toward_zero((v as i128) * (dt as i128), ONE);
    if w > POS_LIMIT as i128 {
        POS_LIMIT
    } else if w < -(POS_LIMIT as i128) {
        -POS_LIMIT
    } else {
        w as i64
    }
}

/// `clamp_speed`: a velocity longer than `limit` scaled back to it.
pub fn clamp_velocity(vx: i64, vy: i64, limit: i64) -> (r: (i64, i64))
    requires
        -VEL_LIMIT <= vx <= VEL_LIMIT,
        -VEL_LIMIT <= vy <= VEL_LIMIT,
        0 <= limit <= VEL_LIMIT,
    ensures
        r.0 == clamp_speed(vx as int, vy as int, limit as int).0,
        r.1 == clamp_speed(vx as int, vy as int, limit as int).1,
        -VEL_LIMIT <= r.0 <= VEL_LIMIT,
        -VEL_LIMIT <= r.1 <= VEL_LIMIT,
{
    if limit == 0 {
        return (vx, vy);
    }
    assert(0 <= vx * vx <= 0x1_0000_0000_0000_0000_0000) by (nonlinear_arith)
        requires
            -0x100_0000_0000 <= vx <= 0x100_0000_0000,
    ;
    assert(0 <= vy * vy <= 0x1_0000_0000_0000_0000_0000) by (nonlinear_arith)
        requires
            -0x100_0000_0000 <= vy <= 0x100_0000_0000,
    ;
    assert(0 <= limit * limit <= 0x1_0000_0000_0000_0000_0000) by (nonlinear_arith)
        requires
            0 <= limit <= 0x100_0000_0000,
    ;
    let sq = (vx as i128) * (vx as i128) + (vy as i128) * (vy as i128);
    if sq <= (limit as i128) * (limit as i128) {
        return (vx, vy);
    }
    let s = isqrt(sq as u128);
    proof {
        assert(s >= limit) by (nonlinear_arith)
            requires
                sq < (s + 1) * (s + 1),
                sq > limit * limit,
                limit >= 0,
                s >= 0,
        ;
        assert(-(vx * s) <= vx * limit <= vx * s || -(-vx * s) <= vx * limit <= -vx * s) by (nonlinear_arith)
            requires
                0 <= limit <= s,
        ;
        assert(vx >= 0 ==> -(vx * s) <= vx * limit <= vx * s) by (nonlinear_arith)
            requires
                0 <= limit <= s,
        ;
        assert(vx < 0 ==> -((-vx) * s) <= vx * limit <= (-vx) * s) by (nonlinear_arith)
            requires
                0 <= limit <= s,
        ;
        assert(vy >= 0 ==> -(vy * s) <= vy * limit <= vy * s) by (nonlinear_arith)
            requires
                0 <= limit <= s,
        ;
        assert(vy < 0 ==> -((-vy) * s) <= vy * limit <= (-vy) * s) by (nonlinear_arith)
            requires
                0 <= limit <= s,
        ;
        if vx >= 0 {
            lemma_div_trunc_bound(vx * limit, s as int, vx as int);
        } else {
            lemma_div_trunc_bound(vx * limit, s as int, -vx);
        }
        if vy >= 0 {
            lemma_div_trunc_bound(vy * limit, s as int, vy as int);
        } else {
            lemma_div_trunc_bound(vy * limit, s as int, -vy);
        }
        assert(-0x1_0000_0000_0000_0000_0000 <= vx * limit <= 0x1_0000_0000_0000_0000_0000) by (nonlinear_arith)
            requires
                -0x100_0000_0000 <= vx <= 0x100_0000_0000,
                0 <= limit <= 0x100_0000_0000,
        ;
        assert(-0x1_0000_0000_0000_0000_0000 <= vy * limit <= 0x1_0000_0000_0000_0000_0000) by (nonlinear_arith)
            requires
                -0x100_0000_0000 <= vy <= 0x100_0000_0000,
                0 <= limit <= 0x100_0000_0000,
        ;
    }
    let nx = div_toward_zero((vx as i128) * (limit as i128), s as i128);
    let ny = div_toward_zero((vy as i128) * (limit as i128), s as i128);
    (nx as i64, ny as i64)
}

/// What one step makes of body `i`: its scaled acceleration on the tree
/// `ns`, then its velocity and position.
pub open spec fn body_after_step(
    ns: Seq<Node>,
    c: Constants,
    x: int,
    y: int,
    vx: int,
    vy: int,
) -> (int, int, int, int, int, int) {
    let a = node_accel(ns, 0, x, y, c.force_params());
    let ax = scaled_accel(a.0, c.gravity as int);
    let ay = scaled_accel(a.1, c.gravity as int);
    let v = clamp_speed(
        kick(vx, ax, c.delta_t as int),
        kick(vy, ay, c.delta_t as int),
        c.speed_limit as int,
    );
    (ax, ay, v.0, v.1, drift(x, v.0, c.delta_t as int), drift(y, v.1, c.delta_t as int))
}

/// One step: the tree is rebuilt over `covering_region` of the positions,
/// each body's acceleration is evaluated on it, and velocity then position
/// advance by semi-implicit Euler with the optional speed clamp. On an
/// error nothing but the tree changes.
pub fn step(
    positions: &mut Vec2D,
    velocities: &mut Vec2D,
    accelerations: &mut Vec2D,
    bh_tree: &mut Tree,
    constants: &Constants,
) -> (r: Result<(), BuildError>)
    requires
        constants.wf(),
        1 <= old(bh_tree).nodes@.len() <= MAX_NODES + TREE_GROWTH_INCREMENT,
        old(positions).bounded(old(positions).x@.len() as int, POS_LIMIT as int),
        old(velocities).bounded(old(positions).x@.len() as int, VEL_LIMIT as int),
        old(accelerations).bounded(old(positions).x@.len() as int, ACC_LIMIT as int),
    ensures
        final(bh_tree).wf(),
        r == Err::<(), BuildError>(BuildError::TooManyBodies) <==> old(positions).x@.len() > MAX_BODIES,
        r == Err::<(), BuildError>(BuildError::Degenerate) ==> has_duplicate(
            old(positions).x@,
            old(positions).y@,
            old(positions).x@.len() as int,
        ),
        r != Err::<(), BuildError>(BuildError::OutOfRegion),
        old(positions).x@.len() <= MAX_BODIES && has_duplicate(
            old(positions).x@,
            old(positions).y@,
            old(positions).x@.len() as int,
        ) ==> r == Err::<(), BuildError>(BuildError::Degenerate),
        old(positions).x@.len() <= MAX_BODIES && !has_duplicate(
            old(positions).x@,
            old(positions).y@,
            old(positions).x@.len() as int,
        ) ==> r is Ok,
        r is Err ==> {
            &&& final(positions).x@ == old(positions).x@
            &&& final(positions).y@ == old(positions).y@
            &&& final(velocities).x@ == old(velocities).x@
            &&& final(velocities).y@ == old(velocities).y@
            &&& final(accelerations).x@ == old(accelerations).x@
            &&& final(accelerations).y@ == old(accelerations).y@
        },
        covers_exactly(final(bh_tree).root, old(positions).x@, old(positions).y@, old(positions).x@.len() as int),
        r is Ok ==> {
            &&& built_upto(*final(bh_tree), old(positions).x@, old(positions).y@, old(positions).x@.len() as int)
            &&& build_spec(final(bh_tree).root, old(positions).x@, old(positions).y@, old(positions).x@.len() as nat)
                == Some(final(bh_tree).live())
            &&& final(positions).bounded(old(positions).x@.len() as int, POS_LIMIT as int)
            &&& final(velocities).bounded(old(positions).x@.len() as int, VEL_LIMIT as int)
            &&& final(accelerations).bounded(old(positions).x@.len() as int, ACC_LIMIT as int)
            &&& forall|i: int| 0 <= i < old(positions).x@.len() ==> #[trigger] body_after_step(
                final(bh_tree).live(),
                *constants,
                old(positions).x@[i] as int,
                old(positions).y@[i] as int,
                old(velocities).x@[i] as int,
                old(velocities).y@[i] as int,
            ) == (
                final(accelerations).x@[i] as int,
                final(accelerations).y@[i] as int,
                final(velocities).x@[i] as int,
                final(velocities).y@[i] as int,
                final(positions).x@[i] as int,
                final(positions).y@[i] as int,
            )
        },
{
    let n = positions.x.len();
    let root = covering_region(&positions.x, &positions.y);
    bh_tree.reset(root);
    match bh_tree.construct(&positions.x, &positions.y) {
        Ok(()) => {},
        Err(e) => {
            return Err(e);
        },
    }
    proof {
        lemma_built_upto_is_built(*bh_tree, positions.x@, positions.y@, n as int);
    }
    let ghost x0 = positions.x@;
    let ghost y0 = positions.y@;
    let ghost vx0 = velocities.x@;
    let ghost vy0 = velocities.y@;
    let force = ForceParams { theta: constants.theta, softening: constants.softening };
    let mut i: usize = 0;
    while i < n
        invariant
            i <= n,
            n == x0.len(),
            n <= MAX_BODIES,
            constants.wf(),
            force == constants.force_params(),
            is_built(*bh_tree),
            built_upto(*bh_tree, x0, y0, n as int),
            build_spec(bh_tree.root, x0, y0, n as nat) == Some(bh_tree.live()),
            all_inside(bh_tree.root, x0, y0, n as int),
            positions.bounded(n as int, POS_LIMIT as int),
            velocities.bounded(n as int, VEL_LIMIT as int),
            accelerations.bounded(n as int, ACC_LIMIT as int),
            forall|j: int| i <= j < n ==> positions.x@[j] == x0[j] && positions.y@[j] == y0[j],
            forall|j: int| i <= j < n ==> velocities.x@[j] == vx0[j] && velocities.y@[j] == vy0[j],
            forall|j: int| 0 <= j < i ==> #[trigger] body_after_step(
                bh_tree.live(),
                *constants,
                x0[j] as int,
                y0[j] as int,
                vx0[j] as int,
                vy0[j] as int,
            ) == (
                accelerations.x@[j] as int,
                accelerations.y@[j] as int,
                velocities.x@[j] as int,
                velocities.y@[j] as int,
                positions.x@[j] as int,
                positions.y@[j] as int,
            ),
        decreases n - i,
    {
        let px = positions.x[i];
        let py = positions.y[i];
        let a = add_node_acceleration((px, py), bh_tree, 0, &force);
        proof {
            assert(bh_tree.live()[0].count == n);
            assert(-(MAX_BODIES * ONE_CUBED) <= a.0 <= MAX_BODIES * ONE_CUBED) by (nonlinear_arith)
                requires
                    -(n * ONE_CUBED) <= a.0 <= n * ONE_CUBED,
                    n <= MAX_BODIES,
                    ONE_CUBED > 0,
            ;
            assert(-(MAX_BODIES * ONE_CUBED) <= a.1 <= MAX_BODIES * ONE_CUBED) by (nonlinear_arith)
                requires
                    -(n * ONE_CUBED) <= a.1 <= n * ONE_CUBED,
                    n <= MAX_BODIES,
                    ONE_CUBED > 0,
            ;
        }
        let ax = scale_accel(a.0, constants.gravity);
        let ay = scale_accel(a.1, constants.gravity);
        let kx = kick_velocity(velocities.x[i], ax, constants.delta_t);
        let ky = kick_velocity(velocities.y[i], ay, constants.delta_t);
        let (vx, vy) = clamp_velocity(kx, ky, constants.speed_limit);
        let nx = drift_position(px, vx, constants.delta_t);
        let ny = drift_position(py, vy, constants.delta_t);
        accelerations.x.set(i, ax);
        accelerations.y.set(i, ay);
        velocities.x.set(i, vx);
        velocities.y.set(i, vy);
        positions.x.set(i, nx);
        positions.y.set(i, ny);
        assert(body_after_step(bh_tree.live(), *constants, x0[i as int] as int, y0[i as int] as int, vx0[i as int] as int, vy0[i as int] as int) == (
            ax as int, ay as int, vx as int, vy as int, nx as int, ny as int));
        i = i + 1;
    }
    Ok(())
}

} // verus!
