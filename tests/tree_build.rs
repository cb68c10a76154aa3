use nbody_bh::arena::{Node, Tree, NO_CHILD};
use nbody_bh::builder::BuildError;
use nbody_bh::region::Region;

fn children(n: &Node) -> [usize; 4] {
    [n.top_left, n.top_right, n.bottom_left, n.bottom_right]
}

fn scattered_points(n: usize) -> (Vec<i64>, Vec<i64>) {
    let mut x = Vec::new();
    let mut y = Vec::new();
    let mut s: i64 = 12345;
    for _ in 0..n {
        s = (s * 1103515245 + 12345) % 2147483648;
        x.push(s % 2000 - 1000);
        s = (s * 1103515245 + 12345) % 2147483648;
        y.push(s % 2000 - 1000);
    }
    (x, y)
}

fn world() -> Region {
    Region::new(-1024, -1024, 2048).unwrap()
}

#[test]
fn built_tree_leaves_hold_at_most_one_body_and_inner_nodes_sum_children() {
    let (x, y) = scattered_points(200);
    let mut tree = Tree::new(world());
    assert_eq!(tree.construct(&x, &y), Ok(()));
    assert_eq!(tree.node(0).count, 200);
    for h in 0..tree.num_nodes {
        let n = tree.node(h);
        if n.is_leaf() {
            assert!(n.count <= 1);
        } else {
            let mut count = 0usize;
            let mut sx = 0i128;
            let mut sy = 0i128;
            for c in children(n) {
                if c != NO_CHILD {
                    assert!(c > h && c < tree.num_nodes);
                    count += tree.node(c).count;
                    sx += tree.node(c).sum_x;
                    sy += tree.node(c).sum_y;
                }
            }
            assert_eq!(n.count, count);
            assert_eq!(n.sum_x, sx);
            assert_eq!(n.sum_y, sy);
            // the centre of mass is the count-weighted mean of the children's
            let cx = n.sum_x as f64 / n.count as f64;
            let mut weighted = 0.0;
            for c in children(n) {
                if c != NO_CHILD {
                    let m = tree.node(c);
                    weighted += (m.sum_x as f64 / m.count as f64) * m.count as f64;
                }
            }
            assert!((cx - weighted / n.count as f64).abs() < 1e-9);
        }
    }
}

#[test]
fn rebuilding_from_the_same_positions_gives_the_same_arena() {
    let (x, y) = scattered_points(100);
    let mut fresh = Tree::new(world());
    fresh.construct(&x, &y).unwrap();
    let mut reused = Tree::new(world());
    let (x2, y2) = scattered_points(300);
    reused.construct(&x2, &y2).unwrap();
    reused.construct(&x, &y).unwrap();
    fresh.construct(&x, &y).unwrap();
    assert_eq!(fresh.num_nodes, reused.num_nodes);
    for h in 0..fresh.num_nodes {
        assert_eq!(fresh.node(h), reused.node(h));
    }
}

#[test]
fn single_body_is_one_occupied_root_leaf() {
    let mut tree = Tree::new(world());
    tree.construct(&vec![7], &vec![-3]).unwrap();
    assert_eq!(tree.num_nodes, 1);
    let root = tree.node(0);
    assert!(root.is_leaf());
    assert_eq!(root.count, 1);
    assert_eq!((root.sum_x, root.sum_y), (7, -3));
}

#[test]
fn no_bodies_leave_an_empty_root() {
    let mut tree = Tree::new(world());
    tree.construct(&vec![1, 2, 3], &vec![1, 2, 3]).unwrap();
    tree.construct(&vec![], &vec![]).unwrap();
    assert_eq!(tree.num_nodes, 1);
    assert!(tree.node(0).is_leaf());
    assert_eq!(tree.node(0).count, 0);
}

#[test]
fn coincident_bodies_are_degenerate() {
    let mut tree = Tree::new(world());
    assert_eq!(
        tree.construct(&vec![5, 9, 5], &vec![5, 1, 5]),
        Err(BuildError::Degenerate)
    );
}

#[test]
fn neighbouring_lattice_points_are_separated() {
    let mut tree = Tree::new(world());
    assert_eq!(tree.construct(&vec![5, 6, 5], &vec![5, 5, 6]), Ok(()));
    assert_eq!(tree.node(0).count, 3);
}

#[test]
fn body_outside_the_root_is_refused() {
    let mut tree = Tree::new(world());
    // the left edge itself is outside: x0 < x <= x0 + size
    assert_eq!(
        tree.construct(&vec![0, -1024], &vec![0, 0]),
        Err(BuildError::OutOfRegion)
    );
    assert_eq!(
        tree.construct(&vec![1024], &vec![1024]),
        Err(BuildError::OutOfRegion)
    );
    assert_eq!(tree.construct(&vec![1024], &vec![-1024]), Ok(()));
}

#[test]
fn region_sizes_must_be_powers_of_two_within_limits() {
    assert!(Region::new(0, 0, 8).is_some());
    assert!(Region::new(0, 0, 6).is_none());
    assert!(Region::new(0, 0, 0).is_none());
    assert!(Region::new(0, 0, 1).is_some());
    assert!(Region::new(1099511627776 - 4, 0, 8).is_none());
    assert!(Region::new(-1099511627776, -1099511627776, 2199023255552).is_some());
}

#[test]
fn quadrant_ties_go_left_and_top() {
    let r = Region::new(0, 0, 8).unwrap();
    assert_eq!(r.quadrant(4, 4), 0);
    assert_eq!(r.quadrant(5, 4), 1);
    assert_eq!(r.quadrant(4, 3), 2);
    assert_eq!(r.quadrant(5, 3), 3);
    assert_eq!(r.child(1), Region::new(4, 4, 4).unwrap());
    assert_eq!(r.child(2), Region::new(0, 0, 4).unwrap());
}

#[test]
fn print_lists_nodes_depth_first() {
    let mut tree = Tree::new(Region::new(0, 0, 8).unwrap());
    tree.construct(&vec![1, 5], &vec![1, 5]).unwrap();
    assert_eq!(
        tree.print(0, 0),
        "Node 0: mass 2, centre of mass (3, 3)\n  Node 2: mass 1, centre of mass (5, 5)\n  Node 1: mass 1, centre of mass (1, 1)\n"
    );
}

#[test]
fn print_rounds_negative_centres_toward_zero() {
    let mut tree = Tree::new(Region::new(-8, -8, 16).unwrap());
    tree.construct(&vec![-3, -4], &vec![-6, 1]).unwrap();
    let text = tree.print(0, 0);
    assert!(text.starts_with("Node 0: mass 2, centre of mass (-3, -2)\n"));
}

#[test]
fn arena_grows_by_whole_increments_and_keeps_its_slots() {
    let (x, y) = scattered_points(150);
    let mut tree = Tree::new(world());
    tree.construct(&x, &y).unwrap();
    let slots = tree.nodes.len();
    assert!(slots >= tree.num_nodes);
    assert_eq!((slots - 1) % 100, 0);
    tree.construct(&vec![1], &vec![1]).unwrap();
    assert_eq!(tree.nodes.len(), slots);
    assert_eq!(tree.num_nodes, 1);
}

#[test]
fn print_indents_by_the_depth_given() {
    let mut tree = Tree::new(Region::new(0, 0, 8).unwrap());
    tree.construct(&vec![1, 5], &vec![1, 5]).unwrap();
    assert_eq!(tree.print(3, 1), "      Node 1: mass 1, centre of mass (1, 1)\n");
}

#[test]
fn every_node_but_the_root_holds_a_body() {
    let (x, y) = scattered_points(120);
    let mut tree = Tree::new(world());
    tree.construct(&x, &y).unwrap();
    for h in 1..tree.num_nodes {
        assert!(tree.node(h).count >= 1);
    }
}
