use nbody_bh::arena::Tree;
use nbody_bh::force::{add_node_acceleration, ForceParams};
use nbody_bh::region::Region;

const ONE: i64 = 65536;

fn accel_all(x: &Vec<i64>, y: &Vec<i64>, region: Region, p: ForceParams) -> Vec<(i128, i128)> {
    let mut tree = Tree::new(region);
    tree.construct(x, y).unwrap();
    (0..x.len())
        .map(|i| add_node_acceleration((x[i], y[i]), &tree, 0, &p))
        .collect()
}

#[test]
fn two_bodies_pull_each_other_equally_and_oppositely() {
    let x = vec![-ONE, ONE];
    let y = vec![0, 0];
    let region = Region::new(-2 * ONE, -2 * ONE, 4 * ONE).unwrap();
    let a = accel_all(&x, &y, region, ForceParams { theta: 0, softening: 6554 });
    // 2 / (2^3 + 0.1) in units of 1/65536
    assert_eq!(a[0], (16181, 0));
    assert_eq!(a[1], (-16181, 0));
    assert_eq!(a[0].0, -a[1].0);
    assert_eq!(a[0].1, -a[1].1);
}

#[test]
fn lone_body_feels_nothing_from_itself() {
    let region = Region::new(-ONE, -ONE, 2 * ONE).unwrap();
    let a = accel_all(&vec![100], &vec![-100], region, ForceParams { theta: 0, softening: 0 });
    assert_eq!(a[0], (0, 0));
}

#[test]
fn empty_tree_gives_zero_acceleration_anywhere() {
    let mut tree = Tree::new(Region::new(-ONE, -ONE, 2 * ONE).unwrap());
    tree.construct(&vec![], &vec![]).unwrap();
    let p = ForceParams { theta: 32768, softening: 6554 };
    assert_eq!(add_node_acceleration((0, 0), &tree, 0, &p), (0, 0));
    assert_eq!(add_node_acceleration((ONE, -ONE), &tree, 0, &p), (0, 0));
}

#[test]
fn softening_is_added_to_the_cubed_distance() {
    // one body at distance 1 along y: 1 / (1 + 1) = 0.5
    let region = Region::new(-2 * ONE, -2 * ONE, 4 * ONE).unwrap();
    let x = vec![0, 0];
    let y = vec![0, ONE];
    let a = accel_all(&x, &y, region, ForceParams { theta: 0, softening: ONE as u32 });
    assert_eq!(a[0], (0, ONE as i128 / 2));
    assert_eq!(a[1], (0, -(ONE as i128) / 2));
}

#[test]
fn far_cluster_counts_as_one_point_when_theta_allows() {
    // four bodies in a tight square far from a probe body
    let d = 40 * ONE;
    let x = vec![0, d, d + 2, d, d + 2];
    let y = vec![0, d, d, d + 2, d + 2];
    let region = Region::new(-64 * ONE, -64 * ONE, 128 * ONE).unwrap();
    let exact = accel_all(&x, &y, region, ForceParams { theta: 0, softening: 6554 })[0];
    let coarse = accel_all(&x, &y, region, ForceParams { theta: 32768, softening: 6554 })[0];
    assert!(exact.0 > 0 && exact.1 > 0);
    let err = (coarse.0 - exact.0).abs() + (coarse.1 - exact.1).abs();
    // the cluster's pull is within a few units of the exact sum
    assert!(err < 64, "err {}", err);
}

#[test]
fn smaller_theta_approaches_the_exact_acceleration() {
    let mut x = Vec::new();
    let mut y = Vec::new();
    let mut s: i64 = 99;
    for _ in 0..60 {
        s = (s * 1103515245 + 12345) % 2147483648;
        x.push(s % (40 * ONE) - 20 * ONE);
        s = (s * 1103515245 + 12345) % 2147483648;
        y.push(s % (40 * ONE) - 20 * ONE);
    }
    let region = Region::new(-32 * ONE, -32 * ONE, 64 * ONE).unwrap();
    let exact = accel_all(&x, &y, region, ForceParams { theta: 0, softening: 6554 });
    let thetas: [u32; 5] = [98304, 65536, 32768, 16384, 4096];
    let mut errors = Vec::new();
    for t in thetas {
        let approx = accel_all(&x, &y, region, ForceParams { theta: t, softening: 6554 });
        let mut err: f64 = 0.0;
        for i in 0..x.len() {
            let dx = (approx[i].0 - exact[i].0) as f64;
            let dy = (approx[i].1 - exact[i].1) as f64;
            err += (dx * dx + dy * dy).sqrt();
        }
        errors.push(err);
    }
    for k in 1..errors.len() {
        assert!(errors[k] <= errors[k - 1], "errors {:?}", errors);
    }
    assert!(errors[0] > 0.0);
    assert!(errors[errors.len() - 1] < errors[0] / 4.0, "errors {:?}", errors);
}
