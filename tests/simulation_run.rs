use nbody_bh::arena::Tree;
use nbody_bh::builder::BuildError;
use nbody_bh::physics::{clamp_velocity, covering_region, step, ConfigError, Constants, Vec2D};
use nbody_bh::region::Region;
use nbody_bh::simulation::Simulation;

const ONE: i64 = 65536;

fn constants(n: usize) -> Constants {
    Constants {
        num_bodies: n,
        num_steps: 10,
        write_interval: 1,
        delta_t: 655,
        softening: 6554,
        gravity: ONE,
        log_energy_conservation: false,
        theta: 0,
        speed_limit: 0,
    }
}

fn energy(p: &Vec2D, v: &Vec2D, gravity: f64) -> f64 {
    let one = ONE as f64;
    let n = p.x.len();
    let mut ke = 0.0;
    let mut pe = 0.0;
    for i in 0..n {
        let vx = v.x[i] as f64 / one;
        let vy = v.y[i] as f64 / one;
        ke += 0.5 * (vx * vx + vy * vy);
        for j in 0..n {
            if i != j {
                let dx = (p.x[i] - p.x[j]) as f64 / one;
                let dy = (p.y[i] - p.y[j]) as f64 / one;
                pe -= gravity / (dx * dx + dy * dy).sqrt();
            }
        }
    }
    ke + pe
}

#[test]
fn circular_two_body_orbit_keeps_its_energy() {
    let mut p = Vec2D { x: vec![-ONE, ONE], y: vec![0, 0] };
    // speed of a circular orbit of radius 1 under 2 / (8 + 0.1)
    let v0 = 32564;
    let mut v = Vec2D { x: vec![0, 0], y: vec![-v0, v0] };
    let mut a = Vec2D::new(2);
    let mut tree = Tree::new(Region::new(-1, 0, 1).unwrap());
    let c = constants(2);
    let e0 = energy(&p, &v, 1.0);
    for _ in 0..500 {
        step(&mut p, &mut v, &mut a, &mut tree, &c).unwrap();
    }
    let e1 = energy(&p, &v, 1.0);
    assert!(((e1 - e0) / e0).abs() < 0.02, "e0 {} e1 {}", e0, e1);
}

#[test]
fn first_step_of_two_bodies_accelerates_them_toward_each_other() {
    let mut p = Vec2D { x: vec![-ONE, ONE], y: vec![0, 0] };
    let mut v = Vec2D::new(2);
    let mut a = Vec2D::new(2);
    let mut tree = Tree::new(Region::new(-1, 0, 1).unwrap());
    step(&mut p, &mut v, &mut a, &mut tree, &constants(2)).unwrap();
    assert_eq!(a.x, vec![16181, -16181]);
    assert_eq!(a.y, vec![0, 0]);
    // v = a * dt, x = x + v * dt, each rounded toward zero
    assert_eq!(v.x, vec![161, -161]);
    assert_eq!(p.x, vec![-ONE + 1, ONE - 1]);
    assert_eq!(p.y, vec![0, 0]);
}

#[test]
fn lone_body_drifts_at_constant_velocity() {
    let mut p = Vec2D { x: vec![0], y: vec![10] };
    let mut v = Vec2D { x: vec![ONE], y: vec![-ONE / 2] };
    let mut a = Vec2D::new(1);
    let mut tree = Tree::new(Region::new(-1, 0, 1).unwrap());
    let mut c = constants(1);
    c.delta_t = ONE;
    step(&mut p, &mut v, &mut a, &mut tree, &c).unwrap();
    assert_eq!((p.x[0], p.y[0]), (ONE, 10 - ONE / 2));
    assert_eq!((v.x[0], v.y[0]), (ONE, -ONE / 2));
}

#[test]
fn coincident_bodies_stop_the_step_and_change_nothing() {
    let mut p = Vec2D { x: vec![3, 3], y: vec![4, 4] };
    let mut v = Vec2D { x: vec![1, 2], y: vec![3, 4] };
    let mut a = Vec2D::new(2);
    let mut tree = Tree::new(Region::new(-1, 0, 1).unwrap());
    assert_eq!(step(&mut p, &mut v, &mut a, &mut tree, &constants(2)), Err(BuildError::Degenerate));
    assert_eq!(p.x, vec![3, 3]);
    assert_eq!(v.y, vec![3, 4]);
}

#[test]
fn speed_clamp_rescales_to_the_limit() {
    assert_eq!(clamp_velocity(300, 400, 250), (150, 200));
    assert_eq!(clamp_velocity(-300, 400, 250), (-150, 200));
    assert_eq!(clamp_velocity(300, 400, 500), (300, 400));
    assert_eq!(clamp_velocity(300, 400, 0), (300, 400));
}

#[test]
fn clamp_applies_within_a_step() {
    let mut p = Vec2D { x: vec![0], y: vec![0] };
    let mut v = Vec2D { x: vec![3 * ONE], y: vec![4 * ONE] };
    let mut a = Vec2D::new(1);
    let mut tree = Tree::new(Region::new(-1, 0, 1).unwrap());
    let mut c = constants(1);
    c.speed_limit = ONE;
    step(&mut p, &mut v, &mut a, &mut tree, &c).unwrap();
    assert_eq!((v.x[0], v.y[0]), (39321, 52428));
}

#[test]
fn covering_region_holds_every_body() {
    let x = vec![-5, 17, 3];
    let y = vec![2, -9, 40];
    let r = covering_region(&x, &y);
    assert_eq!(r.size, 64);
    for i in 0..3 {
        assert!(r.contains(x[i], y[i]));
    }
}

#[test]
fn each_bad_parameter_is_reported() {
    let mut c = constants(2);
    assert_eq!(c.check(), Ok(()));
    c.delta_t = 0;
    assert_eq!(c.check(), Err(ConfigError::BadTimeStep));
    c = constants(2);
    c.gravity = 1 << 30;
    assert_eq!(c.check(), Err(ConfigError::BadGravity));
    c = constants(2);
    c.write_interval = 0;
    assert_eq!(c.check(), Err(ConfigError::BadWriteInterval));
    c = constants(2);
    c.speed_limit = -1;
    assert_eq!(c.check(), Err(ConfigError::BadSpeedLimit));
    c = constants(1 << 25);
    assert_eq!(c.check(), Err(ConfigError::TooManyBodies));
    assert!(matches!(Simulation::new_empty(c, 0, 0), Err(ConfigError::TooManyBodies)));
}

#[test]
fn created_bodies_are_random_and_inside_the_box() {
    let mut sim = Simulation::new_empty(constants(50), 0, 0).unwrap();
    sim.create(50, 1000);
    assert_eq!(sim.positions.x.len(), 50);
    for i in 0..50 {
        assert!(-1000 <= sim.positions.x[i] && sim.positions.x[i] < 1000);
        assert!(-1000 <= sim.positions.y[i] && sim.positions.y[i] < 1000);
        assert_eq!(sim.velocities.x[i], 0);
    }
    let first = sim.positions.x[0];
    assert!(sim.positions.x.iter().any(|&v| v != first));
}

#[test]
fn add_body_refuses_positions_beyond_the_world() {
    let mut sim = Simulation::new_empty(constants(0), 0, 0).unwrap();
    assert!(sim.add_body(1, 2, 3, 4));
    assert!(!sim.add_body(1 << 41, 0, 0, 0));
    assert_eq!(sim.positions.x, vec![1]);
    assert_eq!(sim.velocities.y, vec![4]);
}

#[test]
fn dragging_spawns_bodies_with_the_drag_velocity() {
    let mut sim = Simulation::new_empty(constants(0), 100, ONE / 2).unwrap();
    sim.on_click(1000, 2000);
    assert_eq!(sim.update(), Ok(()));
    assert_eq!(sim.update(), Ok(()));
    assert_eq!(sim.spawner.spawned.x.len(), 4);
    assert!(sim.positions.x.is_empty());
    sim.off_click(1000 + 2 * ONE, 2000);
    assert_eq!(sim.positions.x.len(), 4);
    assert!(sim.spawner.spawned.x.is_empty());
    for i in 0..4 {
        assert!(950 <= sim.positions.x[i] && sim.positions.x[i] < 1050);
        assert!(1950 <= sim.positions.y[i] && sim.positions.y[i] < 2050);
        assert_eq!((sim.velocities.x[i], sim.velocities.y[i]), (ONE, 0));
    }
}

#[test]
fn update_steps_the_bodies_when_not_dragging() {
    let mut sim = Simulation::new_empty(constants(2), 0, 0).unwrap();
    sim.add_body(-ONE, 0, 0, 0);
    sim.add_body(ONE, 0, 0, 0);
    assert_eq!(sim.update(), Ok(()));
    assert_eq!(sim.positions.x, vec![-ONE + 1, ONE - 1]);
}

#[test]
fn new_simulation_has_one_empty_root_node() {
    let sim = Simulation::new_empty(constants(0), 0, 0).unwrap();
    assert_eq!(sim.bh_tree.num_nodes, 1);
    assert!(sim.bh_tree.node(0).is_leaf());
    assert_eq!(sim.bh_tree.node(0).count, 0);
    assert!(sim.accelerations.x.is_empty());
}

#[test]
fn created_bodies_start_without_acceleration_and_old_ones_keep_theirs() {
    let mut sim = Simulation::new_empty(constants(3), 0, 0).unwrap();
    sim.add_body(-ONE, 0, 5, 6);
    sim.add_body(ONE, 0, 0, 0);
    sim.update().unwrap();
    let (ax, vx) = (sim.accelerations.x.clone(), sim.velocities.x.clone());
    sim.create(3, 100);
    assert_eq!(sim.positions.x.len(), 5);
    assert_eq!(&sim.accelerations.x[..2], &ax[..]);
    assert_eq!(&sim.velocities.x[..2], &vx[..]);
    for i in 2..5 {
        assert_eq!((sim.accelerations.x[i], sim.accelerations.y[i]), (0, 0));
    }
}

#[test]
fn dragging_leaves_bodies_accelerations_and_tree_alone() {
    let mut sim = Simulation::new_empty(constants(2), 10, 0).unwrap();
    sim.add_body(-ONE, 0, 0, 0);
    sim.add_body(ONE, 0, 0, 0);
    sim.update().unwrap();
    let acc = sim.accelerations.x.clone();
    let nodes = sim.bh_tree.num_nodes;
    sim.on_click(0, 0);
    sim.update().unwrap();
    assert_eq!(sim.positions.x.len(), 2);
    assert_eq!(sim.accelerations.x, acc);
    assert_eq!(sim.bh_tree.num_nodes, nodes);
    for i in 0..2 {
        assert!(-5 <= sim.spawner.spawned.x[i] && sim.spawner.spawned.x[i] < 5);
    }
}

#[test]
fn stepping_no_bodies_keeps_the_arrays_empty() {
    let mut sim = Simulation::new_empty(constants(0), 0, 0).unwrap();
    assert_eq!(sim.update(), Ok(()));
    assert!(sim.positions.x.is_empty());
    assert_eq!(sim.bh_tree.node(0).count, 0);
    assert!(sim.bh_tree.node(0).is_leaf());
}
