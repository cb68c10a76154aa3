//! Barnes-Hut force evaluation over a built quadtree.
use vstd::prelude::*;
use crate::arena::{tree_ok, links_ok, child_of, children_count, count_at, balanced, leaf_ok, sums_bounded, is_leaf_spec, Node, Tree, NO_CHILD};
use crate::builder::{built_upto, has_duplicate, is_built, leaves_placed, placed, MAX_BODIES};
use crate::fixed::{div_toward_zero, div_trunc, int_sqrt, isqrt, lemma_div_trunc_bound, ONE};
use crate::region::{lemma_pow2_positive, lemma_sub_quadrant, COORD_LIMIT};

verus! {

/// `ONE` cubed: scales a length ratio back to a fixed-point acceleration.
pub const ONE_CUBED: i128 = 281474976710656;

/// `ONE` squared.
pub const ONE_SQUARED: i128 = 4294967296;

/// The two scalars of the force evaluation, in fixed point: the opening
/// threshold `theta` and the softening term added to the cubed distance.
#[derive(Clone, Copy, Debug, PartialEq, Eq, Structural)]
pub struct ForceParams {
    pub theta: u32,
    pub softening: u32,
}

/// The pull of `m` unit masses at offset `(dx, dy)` from the body:
/// `m * delta / (|delta|^3 + softening)`, each component rounded toward zero.
pub open spec fn point_accel(m: int, dx: int, dy: int, softening: int) -> (int, int) {
    let d = int_sqrt(dx * dx + dy * dy);
    let den = d * d * d + softening * (ONE * ONE);
    if den == 0 {
        (0, 0)
    } else {
        (div_trunc(m * dx * (ONE * ONE * ONE), den), div_trunc(m * dy * (ONE * ONE * ONE), den))
    }
}

/// Offset from the body at `(px, py)` to the centre of mass of `n`, rounded toward zero.
pub open spec fn offset_x(n: Node, px: int) -> int {
    div_trunc(n.sum_x - n.count * px, n.count as int)
}

pub open spec fn offset_y(n: Node, py: int) -> int {
    div_trunc(n.sum_y - n.count * py, n.count as int)
}

/// The opening criterion `s / d < theta`, with `s` half the node's side:
/// the node is far enough to count as one point.
pub open spec fn far_enough(n: Node, px: int, py: int, theta: int) -> bool {
    let dx = offset_x(n, px);
    let dy = offset_y(n, py);
    n.region.size * ONE < 2 * theta * int_sqrt(dx * dx + dy * dy)
}

/// The acceleration that the bodies below node `h` give a body at `(px, py)`.
pub open spec fn node_accel(ns: Seq<Node>, h: int, px: int, py: int, p: ForceParams) -> (int, int)
    decreases ns.len() - h,
{
    if h < 0 || h >= ns.len() {
        (0, 0)
    } else {
        let n = ns[h];
        if n.count == 0 {
            (0, 0)
        } else if n.count == 1 {
            point_accel(1, n.sum_x - px, n.sum_y - py, p.softening as int)
        } else if far_enough(n, px, py, p.theta as int) {
            point_accel(n.count as int, offset_x(n, px), offset_y(n, py), p.softening as int)
        } else {
            let c0 = child_of(n, 0);
            let c1 = child_of(n, 1);
            let c2 = child_of(n, 2);
            let c3 = child_of(n, 3);
            let a0 = if c0 != NO_CHILD && h < c0 < ns.len() { node_accel(ns, c0 as int, px, py, p) } else { (0, 0) };
            let a1 = if c1 != NO_CHILD && h < c1 < ns.len() { node_accel(ns, c1 as int, px, py, p) } else { (0, 0) };
            let a2 = if c2 != NO_CHILD && h < c2 < ns.len() { node_accel(ns, c2 as int, px, py, p) } else { (0, 0) };
            let a3 = if c3 != NO_CHILD && h < c3 < ns.len() { node_accel(ns, c3 as int, px, py, p) } else { (0, 0) };
            (a0.0 + a1.0 + a2.0 + a3.0, a0.1 + a1.1 + a2.1 + a3.1)
        }
    }
}

/// The pull of the children of node `h` in quadrants `0 .. q`.
pub open spec fn partial_accel(ns: Seq<Node>, h: int, px: int, py: int, p: ForceParams, q: int) -> (int, int)
    decreases q,
{
    if q <= 0 {
        (0, 0)
    } else {
        let prev = partial_accel(ns, h, px, py, p, q - 1);
        let c = child_of(ns[h], q - 1);
        let a = if c != NO_CHILD && h < c < ns.len() { node_accel(ns, c as int, px, py, p) } else { (0, 0) };
        (prev.0 + a.0, prev.1 + a.1)
    }
}

/// The bodies below the children of node `h` in quadrants `0 .. q`.
pub open spec fn partial_count(ns: Seq<Node>, h: int, q: int) -> int
    decreases q,
{
    if q <= 0 {
        0
    } else {
        partial_count(ns, h, q - 1) + count_at(ns, child_of(ns[h], q - 1))
    }
}

proof fn lemma_partial_count_le(ns: Seq<Node>, h: int, q: int)
    requires
        0 <= q <= 4,
        0 <= h < ns.len(),
        links_ok(ns),
    ensures
        partial_count(ns, h, q) <= children_count(ns, h),
        forall|r: int| 0 <= r <= q ==> partial_count(ns, h, r) <= partial_count(ns, h, q),
    decreases q,
{
    reveal_with_fuel(partial_count, 5);
    assert(count_at(ns, child_of(ns[h], 0)) >= 0);
    assert(count_at(ns, child_of(ns[h], 1)) >= 0);
    assert(count_at(ns, child_of(ns[h], 2)) >= 0);
    assert(count_at(ns, child_of(ns[h], 3)) >= 0);
}

/// The bodies held by the leaves below node `h`, in quadrant order.
pub open spec fn leaf_bodies(ns: Seq<Node>, h: int) -> Seq<(int, int)>
    decreases ns.len() - h, 5nat,
{
    if h < 0 || h >= ns.len() {
        Seq::empty()
    } else if is_leaf_spec(ns[h]) {
        if ns[h].count == 1 {
            seq![(ns[h].sum_x as int, ns[h].sum_y as int)]
        } else {
            Seq::empty()
        }
    } else {
        children_bodies(ns, h, 0)
    }
}

/// The leaf bodies below the children of `h` in quadrants `q ..`.
pub open spec fn children_bodies(ns: Seq<Node>, h: int, q: int) -> Seq<(int, int)>
    decreases ns.len() - h, 4 - q,
{
    if q < 0 || q >= 4 || h < 0 || h >= ns.len() {
        Seq::empty()
    } else {
        let c = child_of(ns[h], q);
        let rest = children_bodies(ns, h, q + 1);
        if c != NO_CHILD && h < c < ns.len() {
            leaf_bodies(ns, c as int) + rest
        } else {
            rest
        }
    }
}

/// The exact sum of the pulls of single bodies at `bs` on a body at `(px, py)`.
pub open spec fn direct_sum(bs: Seq<(int, int)>, px: int, py: int, softening: int) -> (int, int)
    decreases bs.len(),
{
    if bs.len() == 0 {
        (0, 0)
    } else {
        let prev = direct_sum(bs.drop_last(), px, py, softening);
        let b = bs.last();
        let a = point_accel(1, b.0 - px, b.1 - py, softening);
        (prev.0 + a.0, prev.1 + a.1)
    }
}

proof fn lemma_direct_sum_concat(a: Seq<(int, int)>, b: Seq<(int, int)>, px: int, py: int, softening: int)
    ensures
        direct_sum(a + b, px, py, softening).0 == direct_sum(a, px, py, softening).0 + direct_sum(b, px, py, softening).0,
        direct_sum(a + b, px, py, softening).1 == direct_sum(a, px, py, softening).1 + direct_sum(b, px, py, softening).1,
    decreases b.len(),
{
    if b.len() == 0 {
        assert(a + b =~= a);
    } else {
        assert((a + b).drop_last() =~= a + b.drop_last());
        assert((a + b).last() == b.last());
        lemma_direct_sum_concat(a, b.drop_last(), px, py, softening);
    }
}

/// With `theta` 0 no node is ever far enough, so the evaluator opens every
/// inner node and returns the exact sum of the pulls of all the bodies
/// held by the leaves below `h`.
pub proof fn lemma_theta_zero_is_exact(ns: Seq<Node>, h: int, px: int, py: int, p: ForceParams)
    requires
        tree_ok(ns),
        p.theta == 0,
        0 <= h < ns.len(),
    ensures
        node_accel(ns, h, px, py, p) == direct_sum(leaf_bodies(ns, h), px, py, p.softening as int),
    decreases ns.len() - h, 5nat,
{
    let n = ns[h];
    assert(balanced(ns, h));
    assert(leaf_ok(n));
    if n.count == 0 {
        assert(leaf_bodies(ns, h) =~= Seq::<(int, int)>::empty());
        assert(node_accel(ns, h, px, py, p) == (0int, 0int));
    } else if n.count == 1 {
        let bs = leaf_bodies(ns, h);
        assert(bs == seq![(n.sum_x as int, n.sum_y as int)]);
        assert(bs.drop_last() =~= Seq::<(int, int)>::empty());
        assert(bs.last() == (n.sum_x as int, n.sum_y as int));
        assert(direct_sum(bs.drop_last(), px, py, p.softening as int) == (0int, 0int));
    } else {
        assert(!is_leaf_spec(n));
        assert(n.region.wf());
        lemma_pow2_positive(n.region.size as int);
        let dx = offset_x(n, px);
        let dy = offset_y(n, py);
        let d = int_sqrt(dx * dx + dy * dy);
        assert(2 * 0int * d == 0);
        assert(n.region.size * ONE > 0);
        assert(!far_enough(n, px, py, 0));
        lemma_children_exact(ns, h, 0, px, py, p);
        reveal_with_fuel(suffix_accel, 5);
        assert(leaf_bodies(ns, h) == children_bodies(ns, h, 0));
    }
}

/// The children of `h` from quadrant `q` on pull exactly as their leaf bodies do.
proof fn lemma_children_exact(ns: Seq<Node>, h: int, q: int, px: int, py: int, p: ForceParams)
    requires
        tree_ok(ns),
        p.theta == 0,
        0 <= h < ns.len(),
        0 <= q <= 4,
    ensures
        direct_sum(children_bodies(ns, h, q), px, py, p.softening as int) == suffix_accel(ns, h, px, py, p, q),
    decreases ns.len() - h, 4 - q,
{
    if q < 4 {
        let c = child_of(ns[h], q);
        lemma_children_exact(ns, h, q + 1, px, py, p);
        if c != NO_CHILD && h < c < ns.len() {
            lemma_theta_zero_is_exact(ns, c as int, px, py, p);
            lemma_direct_sum_concat(leaf_bodies(ns, c as int), children_bodies(ns, h, q + 1), px, py, p.softening as int);
        }
    }
}

/// The pull of the children of node `h` in quadrants `q .. 4`.
pub open spec fn suffix_accel(ns: Seq<Node>, h: int, px: int, py: int, p: ForceParams, q: int) -> (int, int)
    decreases 4 - q,
{
    if q < 0 || q >= 4 {
        (0, 0)
    } else {
        let rest = suffix_accel(ns, h, px, py, p, q + 1);
        let c = child_of(ns[h], q);
        let a = if c != NO_CHILD && h < c < ns.len() { node_accel(ns, c as int, px, py, p) } else { (0, 0) };
        (a.0 + rest.0, a.1 + rest.1)
    }
}

/// A node holds as many leaf bodies as its count says.
pub proof fn lemma_leaf_bodies_count(ns: Seq<Node>, h: int)
    requires
        tree_ok(ns),
        0 <= h < ns.len(),
    ensures
        leaf_bodies(ns, h).len() == ns[h].count,
    decreases ns.len() - h, 5nat,
{
    let n = ns[h];
    assert(balanced(ns, h));
    assert(leaf_ok(n));
    if !is_leaf_spec(n) {
        lemma_children_count(ns, h, 0);
        reveal_with_fuel(suffix_count, 5);
        assert(leaf_bodies(ns, h) == children_bodies(ns, h, 0));
    }
}

/// The bodies below the children of `h` in quadrants `q .. 4`.
pub open spec fn suffix_count(ns: Seq<Node>, h: int, q: int) -> int
    decreases 4 - q,
{
    if q < 0 || q >= 4 {
        0
    } else {
        let c = child_of(ns[h], q);
        suffix_count(ns, h, q + 1) + if c != NO_CHILD && h < c < ns.len() { ns[c as int].count as int } else { 0 }
    }
}

proof fn lemma_children_count(ns: Seq<Node>, h: int, q: int)
    requires
        tree_ok(ns),
        0 <= h < ns.len(),
        0 <= q <= 4,
    ensures
        children_bodies(ns, h, q).len() == suffix_count(ns, h, q),
    decreases ns.len() - h, 4 - q,
{
    if q < 4 {
        let c = child_of(ns[h], q);
        lemma_children_count(ns, h, q + 1);
        if c != NO_CHILD && h < c < ns.len() {
            lemma_leaf_bodies_count(ns, c as int);
        }
    }
}

/// Every leaf body below `h` is one of the first `k` input bodies.
pub proof fn lemma_leaf_bodies_placed(ns: Seq<Node>, h: int, x: Seq<i64>, y: Seq<i64>, k: int)
    requires
        tree_ok(ns),
        leaves_placed(ns, x, y, k),
        0 <= h < ns.len(),
    ensures
        forall|i: int|
            0 <= i < leaf_bodies(ns, h).len() ==> placed(
                x,
                y,
                k,
                #[trigger] leaf_bodies(ns, h)[i].0,
                leaf_bodies(ns, h)[i].1,
            ),
    decreases ns.len() - h, 5nat,
{
    let n = ns[h];
    if is_leaf_spec(n) {
        if n.count == 1 {
            assert(leaf_bodies(ns, h)[0] == (n.sum_x as int, n.sum_y as int));
        }
    } else {
        lemma_children_placed(ns, h, 0, x, y, k);
        assert(leaf_bodies(ns, h) == children_bodies(ns, h, 0));
    }
}

proof fn lemma_children_placed(ns: Seq<Node>, h: int, q: int, x: Seq<i64>, y: Seq<i64>, k: int)
    requires
        tree_ok(ns),
        leaves_placed(ns, x, y, k),
        0 <= h < ns.len(),
        0 <= q <= 4,
    ensures
        forall|i: int|
            0 <= i < children_bodies(ns, h, q).len() ==> placed(
                x,
                y,
                k,
                #[trigger] children_bodies(ns, h, q)[i].0,
                children_bodies(ns, h, q)[i].1,
            ),
    decreases ns.len() - h, 4 - q,
{
    if q < 4 {
        let c = child_of(ns[h], q);
        lemma_children_placed(ns, h, q + 1, x, y, k);
        if c != NO_CHILD && h < c < ns.len() {
            lemma_leaf_bodies_placed(ns, c as int, x, y, k);
            let a = leaf_bodies(ns, c as int);
            let b = children_bodies(ns, h, q + 1);
            assert(children_bodies(ns, h, q) == a + b);
            assert forall|i: int| 0 <= i < (a + b).len() implies placed(
                x,
                y,
                k,
                #[trigger] (a + b)[i].0,
                (a + b)[i].1,
            ) by {
                if i < a.len() {
                    assert((a + b)[i] == a[i]);
                } else {
                    assert((a + b)[i] == b[i - a.len()]);
                }
            }
        } else {
            assert(children_bodies(ns, h, q) == children_bodies(ns, h, q + 1));
        }
    }
}

/// On a tree built from `n` bodies, evaluation with `theta` 0 is the exact
/// direct sum of single-body pulls over `n` leaf bodies, each of which is
/// one of the input bodies.
pub proof fn lemma_built_theta_zero(t: Tree, x: Seq<i64>, y: Seq<i64>, n: int, px: int, py: int, p: ForceParams)
    requires
        built_upto(t, x, y, n),
        p.theta == 0,
    ensures
        node_accel(t.live(), 0, px, py, p) == direct_sum(leaf_bodies(t.live(), 0), px, py, p.softening as int),
        leaf_bodies(t.live(), 0).len() == n,
        forall|i: int|
            0 <= i < n ==> placed(
                x,
                y,
                n,
                #[trigger] leaf_bodies(t.live(), 0)[i].0,
                leaf_bodies(t.live(), 0)[i].1,
            ),
{
    lemma_theta_zero_is_exact(t.live(), 0, px, py, p);
    lemma_leaf_bodies_count(t.live(), 0);
    lemma_leaf_bodies_placed(t.live(), 0, x, y, n);
}

/// The leaf bodies below `h` lie in its square and no two are equal.
pub proof fn lemma_leaf_bodies_distinct(ns: Seq<Node>, h: int)
    requires
        tree_ok(ns),
        0 <= h < ns.len(),
    ensures
        forall|i: int|
            0 <= i < leaf_bodies(ns, h).len() ==> ns[h].region.holds(
                (#[trigger] leaf_bodies(ns, h)[i]).0,
                leaf_bodies(ns, h)[i].1,
            ),
        leaf_bodies(ns, h).no_duplicates(),
    decreases ns.len() - h, 5nat,
{
    let n = ns[h];
    assert(leaf_ok(n));
    if is_leaf_spec(n) {
        if n.count == 1 {
            assert(leaf_bodies(ns, h)[0] == (n.sum_x as int, n.sum_y as int));
        }
    } else {
        lemma_children_distinct(ns, h, 0);
        assert(leaf_bodies(ns, h) == children_bodies(ns, h, 0));
    }
}

proof fn lemma_children_distinct(ns: Seq<Node>, h: int, q: int)
    requires
        tree_ok(ns),
        0 <= h < ns.len(),
        !is_leaf_spec(ns[h]),
        0 <= q <= 4,
    ensures
        forall|i: int|
            0 <= i < children_bodies(ns, h, q).len() ==> {
                &&& ns[h].region.holds(
                    (#[trigger] children_bodies(ns, h, q)[i]).0,
                    children_bodies(ns, h, q)[i].1,
                )
                &&& ns[h].region.quadrant_of(
                    children_bodies(ns, h, q)[i].0,
                    children_bodies(ns, h, q)[i].1,
                ) >= q
            },
        children_bodies(ns, h, q).no_duplicates(),
    decreases ns.len() - h, 4 - q,
{
    if q < 4 {
        let c = child_of(ns[h], q);
        lemma_children_distinct(ns, h, q + 1);
        let b = children_bodies(ns, h, q + 1);
        if c != NO_CHILD && h < c < ns.len() {
            lemma_leaf_bodies_distinct(ns, c as int);
            let a = leaf_bodies(ns, c as int);
            assert(children_bodies(ns, h, q) == a + b);
            assert(ns[c as int].region == ns[h].region.sub(q as usize));
            assert(ns[h].region.size >= 2);
            assert forall|i: int| 0 <= i < a.len() implies {
                &&& ns[h].region.holds((#[trigger] a[i]).0, a[i].1)
                &&& ns[h].region.quadrant_of(a[i].0, a[i].1) == q
            } by {
                lemma_sub_quadrant(ns[h].region, q as usize, a[i].0, a[i].1);
            }
            assert forall|i: int| 0 <= i < (a + b).len() implies {
                &&& ns[h].region.holds((#[trigger] (a + b)[i]).0, (a + b)[i].1)
                &&& ns[h].region.quadrant_of((a + b)[i].0, (a + b)[i].1) >= q
            } by {
                if i < a.len() {
                    assert((a + b)[i] == a[i]);
                } else {
                    assert((a + b)[i] == b[i - a.len()]);
                }
            }
            assert forall|i: int, j: int|
                0 <= i < (a + b).len() && 0 <= j < (a + b).len() && i != j implies (a + b)[i] != (a
                + b)[j] by {
                if i < a.len() && j < a.len() {
                } else if i >= a.len() && j >= a.len() {
                    assert((a + b)[i] == b[i - a.len()]);
                    assert((a + b)[j] == b[j - a.len()]);
                } else if i < a.len() {
                    assert((a + b)[j] == b[j - a.len()]);
                    assert(ns[h].region.quadrant_of(a[i].0, a[i].1) == q);
                } else {
                    assert((a + b)[i] == b[i - a.len()]);
                    assert(ns[h].region.quadrant_of(a[j].0, a[j].1) == q);
                }
            }
        } else {
            assert(children_bodies(ns, h, q) == b);
        }
    }
}

/// A built tree has no two input bodies at one position: its `n` leaf
/// bodies are distinct and each is an input body, which leaves no room for
/// a repeated input.
pub proof fn lemma_built_inputs_distinct(t: Tree, x: Seq<i64>, y: Seq<i64>, n: int)
    requires
        built_upto(t, x, y, n),
    ensures
        !has_duplicate(x, y, n),
        leaf_bodies(t.live(), 0).no_duplicates(),
{
    let l = leaf_bodies(t.live(), 0);
    lemma_leaf_bodies_count(t.live(), 0);
    lemma_leaf_bodies_placed(t.live(), 0, x, y, n);
    lemma_leaf_bodies_distinct(t.live(), 0);
    if has_duplicate(x, y, n) {
        let (i, j) = choose|i: int, j: int| 0 <= i < j < n && x[i] == x[j] && y[i] == y[j];
        let inputs = Seq::new(n as nat, |k: int| (x[k] as int, y[k] as int));
        let rest = inputs.remove(j);
        assert forall|e: (int, int)| l.to_set().contains(e) implies rest.to_set().contains(e) by {
            let t0 = choose|t0: int| 0 <= t0 < l.len() && l[t0] == e;
            assert(placed(x, y, n, l[t0].0, l[t0].1));
            let k = choose|k: int| 0 <= k < n && x[k] == l[t0].0 && y[k] == l[t0].1;
            if k < j {
                assert(rest[k] == e);
            } else if k > j {
                assert(rest[k - 1] == e);
            } else {
                assert(rest[i] == e);
            }
        }
        rest.lemma_cardinality_of_set();
        l.unique_seq_to_set();
        vstd::seq_lib::seq_to_set_is_finite(rest);
        vstd::set_lib::lemma_len_subset(l.to_set(), rest.to_set());
    }
}

/// The occupied leaves of a tree built from `n` distinct bodies hold exactly
/// those bodies, each once: there are `n` leaf bodies, no two equal, each an
/// input body, and every input body is among them.
pub proof fn lemma_built_leaves_are_inputs(t: Tree, x: Seq<i64>, y: Seq<i64>, n: int)
    requires
        built_upto(t, x, y, n),
    ensures
        leaf_bodies(t.live(), 0).len() == n,
        leaf_bodies(t.live(), 0).no_duplicates(),
        forall|i: int|
            0 <= i < n ==> placed(
                x,
                y,
                n,
                #[trigger] leaf_bodies(t.live(), 0)[i].0,
                leaf_bodies(t.live(), 0)[i].1,
            ),
        forall|j: int|
            0 <= j < n ==> leaf_bodies(t.live(), 0).contains((#[trigger] x[j] as int, y[j] as int)),
{
    let l = leaf_bodies(t.live(), 0);
    lemma_leaf_bodies_count(t.live(), 0);
    lemma_leaf_bodies_placed(t.live(), 0, x, y, n);
    lemma_built_inputs_distinct(t, x, y, n);
    let inputs = Seq::new(n as nat, |k: int| (x[k] as int, y[k] as int));
    assert forall|e: (int, int)| l.to_set().contains(e) implies inputs.to_set().contains(e) by {
        let t0 = choose|t0: int| 0 <= t0 < l.len() && l[t0] == e;
        assert(placed(x, y, n, l[t0].0, l[t0].1));
        let k = choose|k: int| 0 <= k < n && x[k] == l[t0].0 && y[k] == l[t0].1;
        assert(inputs[k] == e);
    }
    assert(inputs.no_duplicates()) by {
        assert forall|i: int, j: int|
            0 <= i < inputs.len() && 0 <= j < inputs.len() && i != j implies inputs[i]
            != inputs[j] by {
            if inputs[i] == inputs[j] {
                if i < j {
                    assert(0 <= i < j < n && x[i] == x[j] && y[i] == y[j]);
                } else {
                    assert(0 <= j < i < n && x[j] == x[i] && y[j] == y[i]);
                }
            }
        }
    }
    l.unique_seq_to_set();
    inputs.unique_seq_to_set();
    vstd::seq_lib::seq_to_set_is_finite(l);
    vstd::seq_lib::seq_to_set_is_finite(inputs);
    vstd::set_lib::lemma_subset_equality(l.to_set(), inputs.to_set());
    assert forall|j: int| 0 <= j < n implies l.contains((#[trigger] x[j] as int, y[j] as int)) by {
        assert(inputs[j] == (x[j] as int, y[j] as int));
        assert(inputs.to_set().contains(inputs[j]));
        assert(l.to_set().contains(inputs[j]));
    }
}

/// The pull of one single body at `b`.
pub open spec fn single_pull(b: (int, int), px: int, py: int, softening: int) -> (int, int) {
    point_accel(1, b.0 - px, b.1 - py, softening)
}

proof fn lemma_direct_sum_remove(s: Seq<(int, int)>, k: int, px: int, py: int, softening: int)
    requires
        0 <= k < s.len(),
    ensures
        direct_sum(s, px, py, softening).0 == direct_sum(s.remove(k), px, py, softening).0
            + single_pull(s[k], px, py, softening).0,
        direct_sum(s, px, py, softening).1 == direct_sum(s.remove(k), px, py, softening).1
            + single_pull(s[k], px, py, softening).1,
{
    let a = s.subrange(0, k);
    let e = seq![s[k]];
    let c = s.subrange(k + 1, s.len() as int);
    assert(s =~= a + (e + c));
    assert(s.remove(k) =~= a + c);
    lemma_direct_sum_concat(a, e + c, px, py, softening);
    lemma_direct_sum_concat(e, c, px, py, softening);
    lemma_direct_sum_concat(a, c, px, py, softening);
    assert(e.drop_last() =~= Seq::<(int, int)>::empty());
    assert(e.last() == s[k]);
    assert(direct_sum(e.drop_last(), px, py, softening) == (0int, 0int));
    assert(direct_sum(e, px, py, softening).0 == single_pull(s[k], px, py, softening).0);
    assert(direct_sum(e, px, py, softening).1 == single_pull(s[k], px, py, softening).1);
}

/// Two lists of distinct bodies holding the same bodies pull alike: the
/// direct sum does not depend on the order.
pub proof fn lemma_direct_sum_same_bodies(a: Seq<(int, int)>, b: Seq<(int, int)>, px: int, py: int, softening: int)
    requires
        a.no_duplicates(),
        b.no_duplicates(),
        a.to_set() == b.to_set(),
    ensures
        direct_sum(a, px, py, softening) == direct_sum(b, px, py, softening),
    decreases a.len(),
{
    if a.len() == 0 {
        if b.len() > 0 {
            assert(b.to_set().contains(b[0]));
        }
        assert(b =~= a);
    } else {
        let e = a.last();
        assert(a.to_set().contains(e));
        let k = choose|k: int| 0 <= k < b.len() && b[k] == e;
        let a1 = a.drop_last();
        let b1 = b.remove(k);
        assert forall|v: (int, int)| a1.to_set().contains(v) <==> b1.to_set().contains(v) by {
            if a1.to_set().contains(v) {
                let i = choose|i: int| 0 <= i < a1.len() && a1[i] == v;
                assert(a[i] == v && i != a.len() - 1);
                assert(v != e);
                assert(a.to_set().contains(v));
                let j = choose|j: int| 0 <= j < b.len() && b[j] == v;
                assert(j != k);
                if j < k {
                    assert(b1[j] == v);
                } else {
                    assert(b1[j - 1] == v);
                }
            }
            if b1.to_set().contains(v) {
                let j = choose|j: int| 0 <= j < b1.len() && b1[j] == v;
                let jb = if j < k { j } else { j + 1 };
                assert(b[jb] == v && jb != k);
                assert(v != e);
                assert(b.to_set().contains(v));
                let i = choose|i: int| 0 <= i < a.len() && a[i] == v;
                assert(i != a.len() - 1);
                assert(a1[i] == v);
            }
        }
        assert(a1.to_set() =~= b1.to_set());
        assert(a1.no_duplicates());
        assert(b1.no_duplicates()) by {
            assert forall|i: int, j: int| 0 <= i < b1.len() && 0 <= j < b1.len() && i != j implies b1[i] != b1[j] by {
                let ib = if i < k { i } else { i + 1 };
                let jb = if j < k { j } else { j + 1 };
                assert(b1[i] == b[ib] && b1[j] == b[jb]);
            }
        }
        lemma_direct_sum_same_bodies(a1, b1, px, py, softening);
        lemma_direct_sum_remove(b, k, px, py, softening);
    }
}

/// The input bodies as a list of points.
pub open spec fn input_bodies(x: Seq<i64>, y: Seq<i64>, n: int) -> Seq<(int, int)> {
    Seq::new(n as nat, |k: int| (x[k] as int, y[k] as int))
}

/// On a tree built from `n` bodies, evaluation with `theta` 0 is the exact
/// pairwise sum of the pulls of all `n` input bodies, in input order.
pub proof fn lemma_built_theta_zero_pairwise(
    t: Tree,
    x: Seq<i64>,
    y: Seq<i64>,
    n: int,
    px: int,
    py: int,
    p: ForceParams,
)
    requires
        built_upto(t, x, y, n),
        p.theta == 0,
    ensures
        node_accel(t.live(), 0, px, py, p) == direct_sum(input_bodies(x, y, n), px, py, p.softening as int),
{
    let l = leaf_bodies(t.live(), 0);
    let inputs = input_bodies(x, y, n);
    lemma_built_theta_zero(t, x, y, n, px, py, p);
    lemma_built_leaves_are_inputs(t, x, y, n);
    lemma_built_inputs_distinct(t, x, y, n);
    assert(inputs.no_duplicates()) by {
        assert forall|i: int, j: int|
            0 <= i < inputs.len() && 0 <= j < inputs.len() && i != j implies inputs[i]
            != inputs[j] by {
            if inputs[i] == inputs[j] {
                if i < j {
                    assert(0 <= i < j < n && x[i] == x[j] && y[i] == y[j]);
                } else {
                    assert(0 <= j < i < n && x[j] == x[i] && y[j] == y[i]);
                }
            }
        }
    }
    assert forall|v: (int, int)| l.to_set().contains(v) <==> inputs.to_set().contains(v) by {
        if l.to_set().contains(v) {
            let i = choose|i: int| 0 <= i < l.len() && l[i] == v;
            assert(placed(x, y, n, l[i].0, l[i].1));
            let k = choose|k: int| 0 <= k < n && x[k] == l[i].0 && y[k] == l[i].1;
            assert(inputs[k] == v);
        }
        if inputs.to_set().contains(v) {
            let k = choose|k: int| 0 <= k < inputs.len() && inputs[k] == v;
            assert(l.contains((x[k] as int, y[k] as int)));
        }
    }
    assert(l.to_set() =~= inputs.to_set());
    lemma_direct_sum_same_bodies(l, inputs, px, py, p.softening as int);
}

/// Two single bodies pull each other with equal and opposite accelerations:
/// the offset seen from the other body is the negated one.
pub proof fn lemma_pair_antisymmetric(dx: int, dy: int, softening: int)
    ensures
        point_accel(1, -dx, -dy, softening).0 == -point_accel(1, dx, dy, softening).0,
        point_accel(1, -dx, -dy, softening).1 == -point_accel(1, dx, dy, softening).1,
{
    assert((-dx) * (-dx) == dx * dx) by (nonlinear_arith);
    assert((-dy) * (-dy) == dy * dy) by (nonlinear_arith);
    assert(1 * (-dx) * (ONE * ONE * ONE) == -(1 * dx * (ONE * ONE * ONE))) by (nonlinear_arith);
    assert(1 * (-dy) * (ONE * ONE * ONE) == -(1 * dy * (ONE * ONE * ONE))) by (nonlinear_arith);
    let d = int_sqrt(dx * dx + dy * dy);
    let den = d * d * d + softening * (ONE * ONE);
    if den != 0 {
        crate::fixed::lemma_div_trunc_odd(1 * dx * (ONE * ONE * ONE), den);
        crate::fixed::lemma_div_trunc_odd(1 * dy * (ONE * ONE * ONE), den);
    }
}

/// Any body feels no pull from an empty tree.
pub proof fn lemma_empty_tree_no_force(ns: Seq<Node>, px: int, py: int, p: ForceParams)
    requires
        ns.len() >= 1,
        ns[0].count == 0,
    ensures
        node_accel(ns, 0, px, py, p) == (0int, 0int),
{
}

/// Evaluates `point_accel`; each component is at most `m * ONE^3` in size.
fn point_acceleration(m: i128, dx: i128, dy: i128, softening: u32) -> (r: (i128, i128))
    requires
        0 <= m <= MAX_BODIES,
        -2 * COORD_LIMIT <= dx <= 2 * COORD_LIMIT,
        -2 * COORD_LIMIT <= dy <= 2 * COORD_LIMIT,
    ensures
        r.0 == point_accel(m as int, dx as int, dy as int, softening as int).0,
        r.1 == point_accel(m as int, dx as int, dy as int, softening as int).1,
        -(m * ONE_CUBED) <= r.0 <= m * ONE_CUBED,
        -(m * ONE_CUBED) <= r.1 <= m * ONE_CUBED,
{
    assert(0 <= dx * dx <= 0x4_0000_0000_0000_0000_0000) by (nonlinear_arith)
        requires
            -0x200_0000_0000 <= dx <= 0x200_0000_0000,
    ;
    assert(0 <= dy * dy <= 0x4_0000_0000_0000_0000_0000) by (nonlinear_arith)
        requires
            -0x200_0000_0000 <= dy <= 0x200_0000_0000,
    ;
    let dx2 = dx * dx;
    let dy2 = dy * dy;
    let sq: u128 = (dx2 + dy2) as u128;
    let d = isqrt(sq);
    proof {
        assert(d < 0x400_0000_0000) by (nonlinear_arith)
            requires
                d * d <= sq,
                sq <= 0x8_0000_0000_0000_0000_0000,
                d >= 0,
        ;
        assert(d * d * d <= 0x2000_0000_0000_0000_0000_0000_0000_0000) by (nonlinear_arith)
            requires
                d * d <= sq,
                sq <= 0x8_0000_0000_0000_0000_0000,
                0 <= d < 0x400_0000_0000,
        ;
    }
    let di = d as i128;
    let den: i128 = di * di * di + (softening as i128) * ONE_SQUARED;
    if den == 0 {
        return (0, 0);
    }
    proof {
        assert(-(d as int) <= dx <= d as int) by (nonlinear_arith)
            requires
                dx * dx <= sq,
                sq < (d + 1) * (d + 1),
                d >= 0,
        ;
        assert(-(d as int) <= dy <= d as int) by (nonlinear_arith)
            requires
                dy * dy <= sq,
                sq < (d + 1) * (d + 1),
                d >= 0,
        ;
        assert(d <= d * d * d) by (nonlinear_arith)
            requires
                d >= 0,
        ;
        assert(-(m * ONE_CUBED * den) <= m * dx * ONE_CUBED <= m * ONE_CUBED * den) by (nonlinear_arith)
            requires
                -den <= dx <= den,
                m >= 0,
                ONE_CUBED > 0,
        ;
        assert(-(m * ONE_CUBED * den) <= m * dy * ONE_CUBED <= m * ONE_CUBED * den) by (nonlinear_arith)
            requires
                -den <= dy <= den,
                m >= 0,
                ONE_CUBED > 0,
        ;
        assert(-0x4_0000_0000_0000_0000_0000_0000_0000 <= m * dx * ONE_CUBED <= 0x4_0000_0000_0000_0000_0000_0000_0000) by (nonlinear_arith)
            requires
                -0x200_0000_0000 <= dx <= 0x200_0000_0000,
                0 <= m <= 0x100_0000,
                ONE_CUBED == 0x1_0000_0000_0000,
        ;
        assert(-0x4_0000_0000_0000_0000_0000_0000_0000 <= m * dy * ONE_CUBED <= 0x4_0000_0000_0000_0000_0000_0000_0000) by (nonlinear_arith)
            requires
                -0x200_0000_0000 <= dy <= 0x200_0000_0000,
                0 <= m <= 0x100_0000,
                ONE_CUBED == 0x1_0000_0000_0000,
        ;
        lemma_div_trunc_bound(m * dx * ONE_CUBED, den as int, m * ONE_CUBED);
        lemma_div_trunc_bound(m * dy * ONE_CUBED, den as int, m * ONE_CUBED);
    }
    let ax = div_toward_zero(m * dx * ONE_CUBED, den);
    let ay = div_toward_zero(m * dy * ONE_CUBED, den);
    (ax, ay)
}

/// The offset from `(px, py)` to the centre of mass of `n`, rounded toward
/// zero; it is at most twice the coordinate limit in size.
fn centre_offset(n: &Node, px: i64, py: i64) -> (r: (i128, i128))
    requires
        sums_bounded(*n),
        1 <= n.count <= MAX_BODIES,
        -COORD_LIMIT <= px <= COORD_LIMIT,
        -COORD_LIMIT <= py <= COORD_LIMIT,
    ensures
        r.0 == offset_x(*n, px as int),
        r.1 == offset_y(*n, py as int),
        -2 * COORD_LIMIT <= r.0 <= 2 * COORD_LIMIT,
        -2 * COORD_LIMIT <= r.1 <= 2 * COORD_LIMIT,
{
    let m = n.count as i128;
    proof {
        assert(-((2 * COORD_LIMIT) * m) <= n.sum_x - m * px <= (2 * COORD_LIMIT) * m) by (nonlinear_arith)
            requires
                -(m * COORD_LIMIT) <= n.sum_x <= m * COORD_LIMIT,
                -COORD_LIMIT <= px <= COORD_LIMIT,
                m >= 0,
        ;
        assert(-((2 * COORD_LIMIT) * m) <= n.sum_y - m * py <= (2 * COORD_LIMIT) * m) by (nonlinear_arith)
            requires
                -(m * COORD_LIMIT) <= n.sum_y <= m * COORD_LIMIT,
                -COORD_LIMIT <= py <= COORD_LIMIT,
                m >= 0,
        ;
        assert(m * px <= 0x100_0000 * 0x100_0000_0000 && m * px >= -(0x100_0000 * 0x100_0000_0000)) by (nonlinear_arith)
            requires
                -0x100_0000_0000 <= px <= 0x100_0000_0000,
                1 <= m <= 0x100_0000,
        ;
        assert(m * py <= 0x100_0000 * 0x100_0000_0000 && m * py >= -(0x100_0000 * 0x100_0000_0000)) by (nonlinear_arith)
            requires
                -0x100_0000_0000 <= py <= 0x100_0000_0000,
                1 <= m <= 0x100_0000,
        ;
        lemma_div_trunc_bound(n.sum_x - m * px, m as int, 2 * COORD_LIMIT);
        lemma_div_trunc_bound(n.sum_y - m * py, m as int, 2 * COORD_LIMIT);
    }
    let dx = div_toward_zero(n.sum_x - m * (px as i128), m);
    let dy = div_toward_zero(n.sum_y - m * (py as i128), m);
    (dx, dy)
}

/// The accumulated acceleration on a body at `body` from the subtree at
/// `node_index`, in unit masses (the caller scales it by the gravitational
/// constant). A node of one body pulls directly; a farther node counts as
/// its body count at its centre of mass; a nearer one is opened and its
/// children summed. Each component is at most the subtree's count times
/// `ONE^3` in size.
#[verifier::rlimit(60)]
#[verifier::spinoff_prover]
pub fn add_node_acceleration(
    body: (i64, i64),
    tree: &Tree,
    node_index: usize,
    params: &ForceParams,
) -> (r: (i128, i128))
    requires
        is_built(*tree),
        node_index < tree.num_nodes,
        -COORD_LIMIT <= body.0 <= COORD_LIMIT,
        -COORD_LIMIT <= body.1 <= COORD_LIMIT,
    ensures
        r.0 == node_accel(tree.live(), node_index as int, body.0 as int, body.1 as int, *params).0,
        r.1 == node_accel(tree.live(), node_index as int, body.0 as int, body.1 as int, *params).1,
        -(tree.live()[node_index as int].count * ONE_CUBED) <= r.0 <= tree.live()[node_index as int].count * ONE_CUBED,
        -(tree.live()[node_index as int].count * ONE_CUBED) <= r.1 <= tree.live()[node_index as int].count * ONE_CUBED,
    decreases tree.num_nodes - node_index,
{
    let ghost ns = tree.live();
    let node = tree.node(node_index);
    let (px, py) = body;
    proof {
        assert(leaf_ok(ns[node_index as int]));
        assert(sums_bounded(ns[node_index as int]));
        assert(balanced(ns, node_index as int));
        assert(node.count <= MAX_BODIES);
    }
    if node.count == 0 {
        return (0, 0);
    }
    if node.count == 1 {
        let dx = node.sum_x - px as i128;
        let dy = node.sum_y - py as i128;
        return point_acceleration(1, dx, dy, params.softening);
    }
    let m = node.count as i128;
    let (dx, dy) = centre_offset(node, px, py);
    assert(0 <= dx * dx <= 0x4_0000_0000_0000_0000_0000) by (nonlinear_arith)
        requires
            -0x200_0000_0000 <= dx <= 0x200_0000_0000,
    ;
    assert(0 <= dy * dy <= 0x4_0000_0000_0000_0000_0000) by (nonlinear_arith)
        requires
            -0x200_0000_0000 <= dy <= 0x200_0000_0000,
    ;
    let d = isqrt((dx * dx + dy * dy) as u128);
    proof {
        assert(node.region.wf());
        assert(2 * params.theta * d < 0x1000_0000_0000_0000_0000) by (nonlinear_arith)
            requires
                0 <= params.theta < 0x1_0000_0000,
                0 <= d < 0x800_0000_0000,
        ;
    }
    if (node.region.size as i128) * ONE < 2 * (params.theta as i128) * (d as i128) {
        return point_acceleration(m, dx, dy, params.softening);
    }
    let mut ax: i128 = 0;
    let mut ay: i128 = 0;
    let mut q: usize = 0;
    while q < 4
        invariant
            0 <= q <= 4,
            is_built(*tree),
            ns == tree.live(),
            node_index < tree.num_nodes,
            *node == ns[node_index as int],
            !is_leaf_spec(*node),
            -COORD_LIMIT <= body.0 <= COORD_LIMIT,
            -COORD_LIMIT <= body.1 <= COORD_LIMIT,
            px == body.0,
            py == body.1,
            ax == partial_accel(ns, node_index as int, px as int, py as int, *params, q as int).0,
            ay == partial_accel(ns, node_index as int, px as int, py as int, *params, q as int).1,
            -(partial_count(ns, node_index as int, q as int) * ONE_CUBED) <= ax <= partial_count(ns, node_index as int, q as int) * ONE_CUBED,
            -(partial_count(ns, node_index as int, q as int) * ONE_CUBED) <= ay <= partial_count(ns, node_index as int, q as int) * ONE_CUBED,
            partial_count(ns, node_index as int, q as int) <= MAX_BODIES,
        decreases 4 - q,
    {
        let c = node.child(q);
        proof {
            lemma_partial_count_le(ns, node_index as int, q as int + 1);
            assert(balanced(ns, node_index as int));
            assert(children_count(ns, node_index as int) == node.count);
        }
        if c != NO_CHILD {
            assert(node_index < c < tree.num_nodes);
            let a = add_node_acceleration(body, tree, c, params);
            ax = ax + a.0;
            ay = ay + a.1;
        }
        q = q + 1;
    }
    proof {
        reveal_with_fuel(partial_count, 5);
        reveal_with_fuel(partial_accel, 5);
        assert(children_count(ns, node_index as int) == partial_count(ns, node_index as int, 4));
    }
    (ax, ay)
}

} // verus!
