//! Building the quadtree from a set of body positions.
use vstd::prelude::*;
use crate::arena::{
    balanced, child_of, children_count, children_sum_x, children_sum_y, count_at, empty_node,
    has_parent, is_leaf_spec, leaf_ok, lemma_replace_node, links_ok, sum_x_at, sum_y_at,
    sums_bounded, tree_ok, Node, Tree, MAX_NODES, NO_CHILD, ROOT_NODE_INDEX, TREE_GROWTH_INCREMENT,
};
use crate::region::{
    lemma_quadrant_holds, lemma_region_level, lemma_sub_wf, level, Region, COORD_LIMIT,
};

verus! {

/// Most bodies one build accepts, so that the arena's handles stay far from
/// the end of `usize`.
pub const MAX_BODIES: usize = 16777216;

/// Most nodes a single insertion can allocate: two per level of the deepest tree.
pub const NODES_PER_BODY: usize = 84;

/// Why a build stopped.
#[derive(Clone, Copy, Debug, PartialEq, Eq, Structural)]
pub enum BuildError {
    /// More bodies than `MAX_BODIES`.
    TooManyBodies,
    /// A body lies outside the root region.
    OutOfRegion,
    /// Two bodies share a lattice point, so no subdivision separates them.
    Degenerate,
}

/// Body `j < k` sits at `(sx, sy)`.
pub open spec fn placed(x: Seq<i64>, y: Seq<i64>, k: int, sx: int, sy: int) -> bool {
    exists|j: int| 0 <= j < k && x[j] == sx && y[j] == sy
}

/// Two of the first `n` bodies share a position.
pub open spec fn has_duplicate(x: Seq<i64>, y: Seq<i64>, n: int) -> bool {
    exists|i: int, j: int| 0 <= i < j < n && x[i] == x[j] && y[i] == y[j]
}

/// Every one of the first `n` bodies lies in `r`.
pub open spec fn all_inside(r: Region, x: Seq<i64>, y: Seq<i64>, n: int) -> bool {
    forall|i: int| 0 <= i < n ==> r.holds(x[i] as int, y[i] as int)
}

/// Each occupied leaf holds one of the first `k` bodies.
pub open spec fn leaves_placed(ns: Seq<Node>, x: Seq<i64>, y: Seq<i64>, k: int) -> bool {
    forall|i: int|
        0 <= i < ns.len() && is_leaf_spec(#[trigger] ns[i]) && ns[i].count == 1 ==> placed(
            x,
            y,
            k,
            ns[i].sum_x as int,
            ns[i].sum_y as int,
        )
}

/// A finished tree, ready for force evaluation.
pub open spec fn is_built(t: Tree) -> bool {
    &&& t.wf()
    &&& tree_ok(t.live())
    &&& forall|i: int| 0 <= i < t.live().len() ==> (#[trigger] t.live()[i]).count <= MAX_BODIES
}

/// A built arena is ready for force evaluation.
pub proof fn lemma_built_upto_is_built(t: Tree, x: Seq<i64>, y: Seq<i64>, k: int)
    requires
        built_upto(t, x, y, k),
        k <= MAX_BODIES,
    ensures
        is_built(t),
{
}

/// The arena after the first `k` bodies went in.
pub open spec fn built_upto(t: Tree, x: Seq<i64>, y: Seq<i64>, k: int) -> bool {
    &&& t.wf()
    &&& tree_ok(t.live())
    &&& t.live()[0].count == k
    &&& forall|i: int|
        0 <= i < t.live().len() ==> (#[trigger] t.live()[i]).count <= k && (i == 0
            || t.live()[i].count >= 1)
    &&& leaves_placed(t.live(), x, y, k)
    &&& t.num_nodes <= 1 + NODES_PER_BODY * k
}

/// Node `i` of an arena in which a body at `(px, py)` is on its way down
/// at `cur`: the nodes above it count it already, `cur` does not yet, so
/// only the parent `par` of `cur` is ahead of its children by that body.
pub open spec fn balanced_on_path(
    ns: Seq<Node>,
    i: int,
    par: int,
    cur: int,
    px: int,
    py: int,
) -> bool {
    !is_leaf_spec(ns[i]) ==> {
        &&& ns[i].count == children_count(ns, i) + (if i == par { 1int } else { 0 })
        &&& ns[i].sum_x == children_sum_x(ns, i) + (if i == par { px } else { 0 })
        &&& ns[i].sum_y == children_sum_y(ns, i) + (if i == par { py } else { 0 })
        &&& ns[i].count >= (if i == cur { 1int } else { 2 })
    }
}

/// Node `n` holding exactly the one body at `(px, py)`.
pub open spec fn with_body(n: Node, px: int, py: int) -> Node {
    Node { count: 1, sum_x: px as i128, sum_y: py as i128, ..n }
}

/// Node `n` with the body at `(px, py)` added to its aggregates.
pub open spec fn counted(n: Node, px: int, py: int) -> Node {
    Node {
        count: (n.count + 1) as usize,
        sum_x: (n.sum_x + px) as i128,
        sum_y: (n.sum_y + py) as i128,
        ..n
    }
}

/// Node `n` with child handle `c` in quadrant `q`.
pub open spec fn set_child_spec(n: Node, q: int, c: usize) -> Node {
    if q == 0 {
        Node { top_left: c, ..n }
    } else if q == 1 {
        Node { top_right: c, ..n }
    } else if q == 2 {
        Node { bottom_left: c, ..n }
    } else {
        Node { bottom_right: c, ..n }
    }
}

/// The arena once node `parent` has a child in quadrant `q` (a new empty
/// leaf at the end when it had none), and that child's handle.
pub open spec fn attach(ns: Seq<Node>, parent: int, q: int) -> (Seq<Node>, int) {
    if child_of(ns[parent], q) != NO_CHILD {
        (ns, child_of(ns[parent], q) as int)
    } else {
        (
            ns.push(empty_node(ns[parent].region.sub(q as usize))).update(
                parent,
                set_child_spec(ns[parent], q, ns.len() as usize),
            ),
            ns.len() as int,
        )
    }
}

/// The arena after the body at `(px, py)` has gone down from node `cur`,
/// or `None` where it meets an occupied leaf of side 1.
pub open spec fn descend(ns: Seq<Node>, cur: int, px: int, py: int) -> Option<Seq<Node>>
    decreases descent_measure(ns[cur]),
{
    if !(0 <= cur < ns.len()) {
        None
    } else {
        let n = ns[cur];
        if is_leaf_spec(n) {
            if n.count == 0 {
                Some(ns.update(cur, with_body(n, px, py)))
            } else if n.region.size == 1 {
                None
            } else {
                let q = n.region.quadrant_of(n.sum_x as int, n.sum_y as int) as int;
                let (ns1, c) = attach(ns, cur, q);
                let ns2 = ns1.update(c, with_body(ns1[c], n.sum_x as int, n.sum_y as int));
                if ns2.len() == ns.len() + 1 && descent_measure(ns2[cur]) < descent_measure(n) {
                    descend(ns2, cur, px, py)
                } else {
                    None
                }
            }
        } else {
            let ns1 = ns.update(cur, counted(n, px, py));
            let q = n.region.quadrant_of(px, py) as int;
            let (ns2, c) = attach(ns1, cur, q);
            if 0 <= c < ns2.len() && descent_measure(ns2[c]) < descent_measure(n) {
                descend(ns2, c, px, py)
            } else {
                None
            }
        }
    }
}

/// The live arena that inserting the first `k` bodies into an empty root
/// over `root` produces, or `None` where two of them coincide.
pub open spec fn build_spec(root: Region, x: Seq<i64>, y: Seq<i64>, k: nat) -> Option<Seq<Node>>
    decreases k,
{
    if k == 0 {
        Some(seq![empty_node(root)])
    } else {
        match build_spec(root, x, y, (k - 1) as nat) {
            Some(ns) => descend(ns, 0, x[k - 1] as int, y[k - 1] as int),
            None => None,
        }
    }
}

/// A whole number of growth blocks is a multiple of the block size.
proof fn lemma_whole_blocks(d: int, blocks: int)
    requires
        d == TREE_GROWTH_INCREMENT * blocks,
    ensures
        d % (TREE_GROWTH_INCREMENT as int) == 0,
{
    vstd::arithmetic::div_mod::lemma_mod_multiples_basic(blocks, TREE_GROWTH_INCREMENT as int);
}

/// Once two bodies have coincided, no later body mends the build.
pub proof fn lemma_build_none_stays(root: Region, x: Seq<i64>, y: Seq<i64>, k: nat, n: nat)
    requires
        build_spec(root, x, y, k) is None,
        k <= n,
    ensures
        build_spec(root, x, y, n) is None,
    decreases n - k,
{
    if k < n {
        assert(build_spec(root, x, y, (k + 1) as nat) is None);
        lemma_build_none_stays(root, x, y, (k + 1) as nat, n);
    }
}

/// How much further a descent at `n` can go: two per level left below it,
/// plus one while it is still a leaf that may have to split.
pub open spec fn descent_measure(n: Node) -> int {
    2 * level(n.region.size as int) + (if is_leaf_spec(n) { 1int } else { 0 })
}


/// The state of a descent of the body at `(px, py)`, number `k` of the
/// input, which has reached node `cur` below its parent `par` (-1 at the root).
pub open spec fn descent_inv(
    ns: Seq<Node>,
    par: int,
    cur: int,
    px: int,
    py: int,
    x: Seq<i64>,
    y: Seq<i64>,
    k: int,
) -> bool {
    &&& links_ok(ns)
    &&& ns.len() < NO_CHILD
    &&& 0 <= cur < ns.len()
    &&& ns[cur].region.holds(px, py)
    &&& (par == -1 <==> cur == 0)
    &&& par != -1 ==> 0 <= par < ns.len() && !is_leaf_spec(ns[par]) && exists|q: int|
        0 <= q < 4 && child_of(ns[par], q) == cur
    &&& forall|i: int| 0 <= i < ns.len() ==> leaf_ok(#[trigger] ns[i])
    &&& forall|i: int|
        0 <= i < ns.len() ==> #[trigger] balanced_on_path(ns, i, par, cur, px, py)
    &&& forall|i: int|
        0 <= i < ns.len() ==> sums_bounded(#[trigger] ns[i]) && ns[i].count <= k + 1 && (i == 0
            || i == cur || ns[i].count >= 1)
    &&& ns[0].count == k + (if cur == 0 { 0int } else { 1 })
    &&& leaves_placed(ns, x, y, k)
    &&& -COORD_LIMIT <= px <= COORD_LIMIT
    &&& -COORD_LIMIT <= py <= COORD_LIMIT
    &&& x[k] == px
    &&& y[k] == py
    &&& 0 <= k < x.len()
    &&& k < MAX_BODIES
    &&& x.len() == y.len()
}

/// A node other than `par` does not name `cur` as a child.
proof fn lemma_only_parent(ns: Seq<Node>, par: int, cur: int, i: int, q: int)
    requires
        links_ok(ns),
        0 <= par < ns.len(),
        0 <= cur < NO_CHILD,
        exists|p: int| 0 <= p < 4 && child_of(ns[par], p) == cur,
        0 <= i < ns.len(),
        0 <= q < 4,
        child_of(ns[i], q) == cur,
    ensures
        i == par,
{
    let p = choose|p: int| 0 <= p < 4 && child_of(ns[par], p) == cur;
    assert(child_of(ns[i], q) == child_of(ns[par], p));
}

proof fn lemma_descent_start(ns: Seq<Node>, x: Seq<i64>, y: Seq<i64>, k: int)
    requires
        tree_ok(ns),
        ns.len() < NO_CHILD,
        ns[0].count == k,
        forall|i: int| 0 <= i < ns.len() ==> (#[trigger] ns[i]).count <= k && (i == 0 || ns[i].count >= 1),
        leaves_placed(ns, x, y, k),
        0 <= k < x.len(),
        k < MAX_BODIES,
        x.len() == y.len(),
        ns[0].region.holds(x[k] as int, y[k] as int),
        ns[0].region.wf(),
    ensures
        descent_inv(ns, -1, 0, x[k] as int, y[k] as int, x, y, k),
{
    assert forall|i: int| 0 <= i < ns.len() implies #[trigger] balanced_on_path(
        ns,
        i,
        -1,
        0,
        x[k] as int,
        y[k] as int,
    ) by {
        assert(balanced(ns, i));
    }
    assert forall|i: int| 0 <= i < ns.len() implies sums_bounded(#[trigger] ns[i]) && ns[i].count
        <= k + 1 && (i == 0 || ns[i].count >= 1) by {
        assert(ns[i].count <= k);
    }
}

/// The node reached has not counted the body yet, so it holds at most `k` bodies.
proof fn lemma_cur_count(ns: Seq<Node>, par: int, cur: int, px: int, py: int, x: Seq<i64>, y: Seq<i64>, k: int)
    requires
        descent_inv(ns, par, cur, px, py, x, y, k),
    ensures
        ns[cur].count <= k,
{
    if cur != 0 {
        let q = choose|q: int| 0 <= q < 4 && child_of(ns[par], q) == cur;
        assert(balanced_on_path(ns, par, par, cur, px, py));
        assert(count_at(ns, child_of(ns[par], 0)) >= 0);
        assert(count_at(ns, child_of(ns[par], 1)) >= 0);
        assert(count_at(ns, child_of(ns[par], 2)) >= 0);
        assert(count_at(ns, child_of(ns[par], 3)) >= 0);
        assert(count_at(ns, child_of(ns[par], q)) == ns[cur].count);
        assert(ns[par].count <= k + 1);
    }
}

/// An inner node's square has room for quadrants, and the body lies in its own.
proof fn lemma_quadrant_holds_inner(ns: Seq<Node>, cur: int, px: int, py: int)
    requires
        links_ok(ns),
        0 <= cur < ns.len(),
        !is_leaf_spec(ns[cur]),
        ns[cur].region.holds(px, py),
    ensures
        ns[cur].region.size >= 2,
        ns[cur].region.sub(ns[cur].region.quadrant_of(px, py)).holds(px, py),
{
    if child_of(ns[cur], 0) != NO_CHILD {
    } else if child_of(ns[cur], 1) != NO_CHILD {
    } else if child_of(ns[cur], 2) != NO_CHILD {
    } else {
        assert(child_of(ns[cur], 3) != NO_CHILD);
    }
    lemma_quadrant_holds(ns[cur].region, px, py);
}

/// An empty leaf takes the body: the tree is whole again, one body larger.
proof fn lemma_place(
    ns0: Seq<Node>,
    par: int,
    cur: int,
    px: int,
    py: int,
    x: Seq<i64>,
    y: Seq<i64>,
    k: int,
    n: Node,
)
    requires
        descent_inv(ns0, par, cur, px, py, x, y, k),
        is_leaf_spec(ns0[cur]),
        ns0[cur].count == 0,
        n == (Node { count: 1, sum_x: px as i128, sum_y: py as i128, ..ns0[cur] }),
    ensures
        tree_ok(ns0.update(cur, n)),
        ns0.update(cur, n)[0].count == k + 1,
        forall|i: int|
            0 <= i < ns0.len() ==> (#[trigger] ns0.update(cur, n)[i]).count <= k + 1 && (i == 0
                || ns0.update(cur, n)[i].count >= 1),
        leaves_placed(ns0.update(cur, n), x, y, k + 1),
{
    lemma_replace_node(ns0, cur, n);
    let ns1 = ns0.update(cur, n);
    assert forall|i: int| 0 <= i < ns1.len() implies #[trigger] balanced(ns1, i) by {
        assert(balanced_on_path(ns0, i, par, cur, px, py));
        if i == cur {
        } else if i == par {
            let q = choose|q: int| 0 <= q < 4 && child_of(ns0[par], q) == cur;
            assert(child_of(ns0[i], q) == cur);
        } else {
            if exists|q: int| 0 <= q < 4 && child_of(ns0[i], q) == cur {
                let q = choose|q: int| 0 <= q < 4 && child_of(ns0[i], q) == cur;
                if par == -1 {
                    assert(i < cur);
                } else {
                    lemma_only_parent(ns0, par, cur, i, q);
                }
            }
        }
    }
    assert forall|i: int| 0 <= i < ns1.len() implies leaf_ok(#[trigger] ns1[i]) && sums_bounded(
        ns1[i],
    ) && ns1[i].count <= k + 1 && (i == 0 || ns1[i].count >= 1) by {
        if i != cur {
            assert(ns1[i] == ns0[i]);
        }
    }
    assert forall|i: int|
        0 <= i < ns1.len() && is_leaf_spec(#[trigger] ns1[i]) && ns1[i].count == 1 implies placed(
        x,
        y,
        k + 1,
        ns1[i].sum_x as int,
        ns1[i].sum_y as int,
    ) by {
        if i == cur {
            assert(x[k] == ns1[i].sum_x && y[k] == ns1[i].sum_y);
        } else {
            assert(ns1[i] == ns0[i]);
            let j = choose|j: int|
                0 <= j < k && x[j] == ns0[i].sum_x && y[j] == ns0[i].sum_y;
            assert(0 <= j < k + 1 && x[j] == ns1[i].sum_x && y[j] == ns1[i].sum_y);
        }
    }
    if cur != 0 {
        assert(ns1[0] == ns0[0]);
    }
}

/// An occupied leaf hands its resident to a new child and becomes an inner node.
#[verifier::rlimit(100)]
#[verifier::spinoff_prover]
proof fn lemma_split(
    ns0: Seq<Node>,
    ns1: Seq<Node>,
    par: int,
    cur: int,
    px: int,
    py: int,
    x: Seq<i64>,
    y: Seq<i64>,
    k: int,
    q: int,
    cn: Node,
)
    requires
        descent_inv(ns0, par, cur, px, py, x, y, k),
        is_leaf_spec(ns0[cur]),
        ns0[cur].count == 1,
        0 <= q < 4,
        ns0.len() + 1 < NO_CHILD,
        links_ok(ns1),
        ns1.len() == ns0.len() + 1,
        forall|i: int| 0 <= i < ns0.len() && i != cur ==> #[trigger] ns1[i] == ns0[i],
        ns1[ns0.len() as int] == empty_node(ns0[cur].region.sub(q as usize)),
        child_of(ns1[cur], q) == ns0.len(),
        forall|p: int| 0 <= p < 4 && p != q ==> child_of(ns1[cur], p) == NO_CHILD,
        ns1[cur].count == ns0[cur].count,
        ns1[cur].sum_x == ns0[cur].sum_x,
        ns1[cur].sum_y == ns0[cur].sum_y,
        ns1[cur].region == ns0[cur].region,
        ns0[cur].region.sub(q as usize).holds(ns0[cur].sum_x as int, ns0[cur].sum_y as int),
        cn == (Node { count: 1, sum_x: ns0[cur].sum_x, sum_y: ns0[cur].sum_y, ..ns1[ns0.len() as int] }),
    ensures
        descent_inv(ns1.update(ns0.len() as int, cn), par, cur, px, py, x, y, k),
        !is_leaf_spec(ns1.update(ns0.len() as int, cn)[cur]),
{
    let c = ns0.len() as int;
    lemma_replace_node(ns1, c, cn);
    let ns2 = ns1.update(c, cn);
    assert forall|i: int, p: int|
        0 <= i < ns1.len() && 0 <= p < 4 && #[trigger] child_of(ns1[i], p) == c implies i == cur
        && p == q by {
        assert(child_of(ns1[i], p) == child_of(ns1[cur], q));
    }
    assert forall|i: int| 0 <= i < ns2.len() implies #[trigger] balanced_on_path(
        ns2,
        i,
        par,
        cur,
        px,
        py,
    ) by {
        if i == c {
        } else if i == cur {
            assert(child_of(ns1[i], q) == c);
            assert(children_count(ns1, i) == 0);
            assert(children_sum_x(ns1, i) == 0);
            assert(children_sum_y(ns1, i) == 0);
        } else {
            assert(balanced_on_path(ns0, i, par, cur, px, py));
            assert(ns1[i] == ns0[i]);
            assert(forall|p: int| 0 <= p < 4 ==> child_of(ns1[i], p) == child_of(ns0[i], p));
            assert(children_count(ns1, i) == children_count(ns0, i));
            assert(children_sum_x(ns1, i) == children_sum_x(ns0, i));
            assert(children_sum_y(ns1, i) == children_sum_y(ns0, i));
        }
    }
    assert forall|i: int| 0 <= i < ns2.len() implies leaf_ok(#[trigger] ns2[i]) && sums_bounded(
        ns2[i],
    ) && ns2[i].count <= k + 1 && (i == 0 || i == cur || ns2[i].count >= 1) by {
        if i != c && i != cur {
            assert(ns2[i] == ns0[i]);
        }
    }
    assert forall|i: int|
        0 <= i < ns2.len() && is_leaf_spec(#[trigger] ns2[i]) && ns2[i].count == 1 implies placed(
        x,
        y,
        k,
        ns2[i].sum_x as int,
        ns2[i].sum_y as int,
    ) by {
        if i == c {
            assert(leaf_ok(ns0[cur]));
        } else if i != cur {
            assert(ns2[i] == ns0[i]);
        }
    }
    if par != -1 {
        let qp = choose|qp: int| 0 <= qp < 4 && child_of(ns0[par], qp) == cur;
        assert(ns2[par] == ns0[par]);
        assert(child_of(ns2[par], qp) == cur);
    }
    if cur != 0 {
        assert(ns2[0] == ns0[0]);
    }
    assert(ns2[cur] == ns1[cur]);
    assert(child_of(ns2[cur], q) == c);
}

/// Child slot `p` of node `i` has the same aggregates in both arenas.
pub open spec fn slot_same(a: Seq<Node>, b: Seq<Node>, i: int, p: int) -> bool {
    &&& count_at(a, child_of(a[i], p)) == count_at(b, child_of(b[i], p))
    &&& sum_x_at(a, child_of(a[i], p)) == sum_x_at(b, child_of(b[i], p))
    &&& sum_y_at(a, child_of(a[i], p)) == sum_y_at(b, child_of(b[i], p))
}

proof fn lemma_slots(a: Seq<Node>, b: Seq<Node>, i: int, j: int)
    requires
        i == j,
        forall|p: int| 0 <= p < 4 ==> #[trigger] slot_same(a, b, i, p),
    ensures
        children_count(a, i) == children_count(b, i),
        children_sum_x(a, i) == children_sum_x(b, i),
        children_sum_y(a, i) == children_sum_y(b, i),
{
    assert(slot_same(a, b, i, 0));
    assert(slot_same(a, b, i, 1));
    assert(slot_same(a, b, i, 2));
    assert(slot_same(a, b, i, 3));
}

/// All child slots but `r` agree, so the children's totals differ by slot `r` alone.
proof fn lemma_slots_but_one(a: Seq<Node>, b: Seq<Node>, i: int, r: int)
    requires
        0 <= r < 4,
        forall|p: int| 0 <= p < 4 && p != r ==> #[trigger] slot_same(a, b, i, p),
    ensures
        children_count(a, i) - count_at(a, child_of(a[i], r)) == children_count(b, i) - count_at(
            b,
            child_of(b[i], r),
        ),
        children_sum_x(a, i) - sum_x_at(a, child_of(a[i], r)) == children_sum_x(b, i) - sum_x_at(
            b,
            child_of(b[i], r),
        ),
        children_sum_y(a, i) - sum_y_at(a, child_of(a[i], r)) == children_sum_y(b, i) - sum_y_at(
            b,
            child_of(b[i], r),
        ),
{
    assert(r == 0 || slot_same(a, b, i, 0));
    assert(r == 1 || slot_same(a, b, i, 1));
    assert(r == 2 || slot_same(a, b, i, 2));
    assert(r == 3 || slot_same(a, b, i, 3));
}

/// One node of `lemma_route`: the node that takes the body.
#[verifier::rlimit(100)]
#[verifier::spinoff_prover]
proof fn lemma_route_cur(
    ns0: Seq<Node>,
    ns2: Seq<Node>,
    par: int,
    cur: int,
    px: int,
    py: int,
    x: Seq<i64>,
    y: Seq<i64>,
    k: int,
    n: Node,
    q: int,
    c: int,
    i: int,
)
    requires
        descent_inv(ns0, par, cur, px, py, x, y, k),
        !is_leaf_spec(ns0[cur]),
        ns0[cur].count <= k,
        n == (Node {
            count: (ns0[cur].count + 1) as usize,
            sum_x: (ns0[cur].sum_x + px) as i128,
            sum_y: (ns0[cur].sum_y + py) as i128,
            ..ns0[cur]
        }),
        0 <= q < 4,
        q == ns0[cur].region.quadrant_of(px, py),
        ns0[cur].region.sub(q as usize).holds(px, py),
        ns2.len() < NO_CHILD,
        links_ok(ns2),
        cur < c < ns2.len(),
        child_of(ns2[cur], q) == c,
        ns2[c].region == ns0[cur].region.sub(q as usize),
        child_of(ns0[cur], q) != NO_CHILD ==> ns2 == ns0.update(cur, n) && c == child_of(
            ns0[cur],
            q,
        ),
        child_of(ns0[cur], q) == NO_CHILD ==> {
            &&& c == ns0.len()
            &&& ns2.len() == ns0.len() + 1
            &&& ns2[c] == empty_node(ns0[cur].region.sub(q as usize))
            &&& forall|i: int| 0 <= i < ns0.len() && i != cur ==> #[trigger] ns2[i] == ns0[i]
            &&& forall|p: int|
                0 <= p < 4 && p != q ==> child_of(ns2[cur], p) == child_of(ns0[cur], p)
            &&& ns2[cur].count == n.count
            &&& ns2[cur].sum_x == n.sum_x
            &&& ns2[cur].sum_y == n.sum_y
            &&& ns2[cur].region == n.region
        },
        0 <= i < ns2.len(),
        i == cur,
    ensures
        balanced_on_path(ns2, i, cur, c, px, py),
{
    let ns1 = ns0.update(cur, n);
    lemma_replace_node(ns0, cur, n);
    let fresh = child_of(ns0[cur], q) == NO_CHILD;
    assert forall|j: int| 0 <= j < ns0.len() && j != cur implies #[trigger] ns2[j] == ns0[j] by {
        if !fresh {
            assert(ns2[j] == ns1[j]);
        }
    }
    assert(ns2[cur].count == n.count && ns2[cur].sum_x == n.sum_x && ns2[cur].sum_y == n.sum_y);
        assert(balanced_on_path(ns0, cur, par, cur, px, py));
        assert forall|p: int| 0 <= p < 4 implies #[trigger] slot_same(ns2, ns0, cur, p) by {
            if p == q {
                if !fresh {
                    assert(ns2[cur] == n);
                }
            } else {
                if !fresh {
                    assert(ns2[cur] == n);
                }
                assert(child_of(ns2[cur], p) == child_of(ns0[cur], p));
                if child_of(ns0[cur], p) != NO_CHILD {
                    assert(cur < child_of(ns0[cur], p) < ns0.len());
                }
            }
        }
        lemma_slots(ns2, ns0, cur, cur);
}

/// One node of `lemma_route`: the former parent.
#[verifier::rlimit(100)]
#[verifier::spinoff_prover]
proof fn lemma_route_par(
    ns0: Seq<Node>,
    ns2: Seq<Node>,
    par: int,
    cur: int,
    px: int,
    py: int,
    x: Seq<i64>,
    y: Seq<i64>,
    k: int,
    n: Node,
    q: int,
    c: int,
    i: int,
)
    requires
        descent_inv(ns0, par, cur, px, py, x, y, k),
        !is_leaf_spec(ns0[cur]),
        ns0[cur].count <= k,
        n == (Node {
            count: (ns0[cur].count + 1) as usize,
            sum_x: (ns0[cur].sum_x + px) as i128,
            sum_y: (ns0[cur].sum_y + py) as i128,
            ..ns0[cur]
        }),
        0 <= q < 4,
        q == ns0[cur].region.quadrant_of(px, py),
        ns0[cur].region.sub(q as usize).holds(px, py),
        ns2.len() < NO_CHILD,
        links_ok(ns2),
        cur < c < ns2.len(),
        child_of(ns2[cur], q) == c,
        ns2[c].region == ns0[cur].region.sub(q as usize),
        child_of(ns0[cur], q) != NO_CHILD ==> ns2 == ns0.update(cur, n) && c == child_of(
            ns0[cur],
            q,
        ),
        child_of(ns0[cur], q) == NO_CHILD ==> {
            &&& c == ns0.len()
            &&& ns2.len() == ns0.len() + 1
            &&& ns2[c] == empty_node(ns0[cur].region.sub(q as usize))
            &&& forall|i: int| 0 <= i < ns0.len() && i != cur ==> #[trigger] ns2[i] == ns0[i]
            &&& forall|p: int|
                0 <= p < 4 && p != q ==> child_of(ns2[cur], p) == child_of(ns0[cur], p)
            &&& ns2[cur].count == n.count
            &&& ns2[cur].sum_x == n.sum_x
            &&& ns2[cur].sum_y == n.sum_y
            &&& ns2[cur].region == n.region
        },
        0 <= i < ns2.len(),
        i == par && i != cur && i < ns0.len(),
    ensures
        balanced_on_path(ns2, i, cur, c, px, py),
{
    let ns1 = ns0.update(cur, n);
    lemma_replace_node(ns0, cur, n);
    let fresh = child_of(ns0[cur], q) == NO_CHILD;
    assert forall|j: int| 0 <= j < ns0.len() && j != cur implies #[trigger] ns2[j] == ns0[j] by {
        if !fresh {
            assert(ns2[j] == ns1[j]);
        }
    }
    assert(ns2[cur].count == n.count && ns2[cur].sum_x == n.sum_x && ns2[cur].sum_y == n.sum_y);
    assert(balanced_on_path(ns0, i, par, cur, px, py));
    assert(ns2[i] == ns0[i]);
        let qp = choose|qp: int| 0 <= qp < 4 && child_of(ns0[par], qp) == cur;
        assert forall|p: int| 0 <= p < 4 && p != qp implies #[trigger] slot_same(ns2, ns0, i, p) by {
            if child_of(ns0[i], p) == cur {
                assert(child_of(ns0[i], p) == child_of(ns0[i], qp));
            }
            if child_of(ns0[i], p) != NO_CHILD {
                assert(i < child_of(ns0[i], p) < ns0.len());
            }
        }
        lemma_slots_but_one(ns2, ns0, i, qp);
}

/// One node of `lemma_route`: any other old node.
#[verifier::rlimit(100)]
#[verifier::spinoff_prover]
proof fn lemma_route_other(
    ns0: Seq<Node>,
    ns2: Seq<Node>,
    par: int,
    cur: int,
    px: int,
    py: int,
    x: Seq<i64>,
    y: Seq<i64>,
    k: int,
    n: Node,
    q: int,
    c: int,
    i: int,
)
    requires
        descent_inv(ns0, par, cur, px, py, x, y, k),
        !is_leaf_spec(ns0[cur]),
        ns0[cur].count <= k,
        n == (Node {
            count: (ns0[cur].count + 1) as usize,
            sum_x: (ns0[cur].sum_x + px) as i128,
            sum_y: (ns0[cur].sum_y + py) as i128,
            ..ns0[cur]
        }),
        0 <= q < 4,
        q == ns0[cur].region.quadrant_of(px, py),
        ns0[cur].region.sub(q as usize).holds(px, py),
        ns2.len() < NO_CHILD,
        links_ok(ns2),
        cur < c < ns2.len(),
        child_of(ns2[cur], q) == c,
        ns2[c].region == ns0[cur].region.sub(q as usize),
        child_of(ns0[cur], q) != NO_CHILD ==> ns2 == ns0.update(cur, n) && c == child_of(
            ns0[cur],
            q,
        ),
        child_of(ns0[cur], q) == NO_CHILD ==> {
            &&& c == ns0.len()
            &&& ns2.len() == ns0.len() + 1
            &&& ns2[c] == empty_node(ns0[cur].region.sub(q as usize))
            &&& forall|i: int| 0 <= i < ns0.len() && i != cur ==> #[trigger] ns2[i] == ns0[i]
            &&& forall|p: int|
                0 <= p < 4 && p != q ==> child_of(ns2[cur], p) == child_of(ns0[cur], p)
            &&& ns2[cur].count == n.count
            &&& ns2[cur].sum_x == n.sum_x
            &&& ns2[cur].sum_y == n.sum_y
            &&& ns2[cur].region == n.region
        },
        0 <= i < ns2.len(),
        i != par && i != cur && i < ns0.len(),
    ensures
        balanced_on_path(ns2, i, cur, c, px, py),
{
    let ns1 = ns0.update(cur, n);
    lemma_replace_node(ns0, cur, n);
    let fresh = child_of(ns0[cur], q) == NO_CHILD;
    assert forall|j: int| 0 <= j < ns0.len() && j != cur implies #[trigger] ns2[j] == ns0[j] by {
        if !fresh {
            assert(ns2[j] == ns1[j]);
        }
    }
    assert(ns2[cur].count == n.count && ns2[cur].sum_x == n.sum_x && ns2[cur].sum_y == n.sum_y);
    assert(balanced_on_path(ns0, i, par, cur, px, py));
    assert(ns2[i] == ns0[i]);
        if exists|p: int| 0 <= p < 4 && child_of(ns0[i], p) == cur {
            let p = choose|p: int| 0 <= p < 4 && child_of(ns0[i], p) == cur;
            if par == -1 {
                assert(i < cur);
            } else {
                lemma_only_parent(ns0, par, cur, i, p);
            }
        }
        assert forall|p: int| 0 <= p < 4 implies #[trigger] slot_same(ns2, ns0, i, p) by {
            if child_of(ns0[i], p) != NO_CHILD {
                assert(i < child_of(ns0[i], p) < ns0.len());
                assert(child_of(ns0[i], p) != cur);
            }
        }
        lemma_slots(ns2, ns0, i, i);
}

/// One node of `lemma_route`.
proof fn lemma_route_at(
    ns0: Seq<Node>,
    ns2: Seq<Node>,
    par: int,
    cur: int,
    px: int,
    py: int,
    x: Seq<i64>,
    y: Seq<i64>,
    k: int,
    n: Node,
    q: int,
    c: int,
    i: int,
)
    requires
        descent_inv(ns0, par, cur, px, py, x, y, k),
        !is_leaf_spec(ns0[cur]),
        ns0[cur].count <= k,
        n == (Node {
            count: (ns0[cur].count + 1) as usize,
            sum_x: (ns0[cur].sum_x + px) as i128,
            sum_y: (ns0[cur].sum_y + py) as i128,
            ..ns0[cur]
        }),
        0 <= q < 4,
        q == ns0[cur].region.quadrant_of(px, py),
        ns0[cur].region.sub(q as usize).holds(px, py),
        ns2.len() < NO_CHILD,
        links_ok(ns2),
        cur < c < ns2.len(),
        child_of(ns2[cur], q) == c,
        ns2[c].region == ns0[cur].region.sub(q as usize),
        child_of(ns0[cur], q) != NO_CHILD ==> ns2 == ns0.update(cur, n) && c == child_of(
            ns0[cur],
            q,
        ),
        child_of(ns0[cur], q) == NO_CHILD ==> {
            &&& c == ns0.len()
            &&& ns2.len() == ns0.len() + 1
            &&& ns2[c] == empty_node(ns0[cur].region.sub(q as usize))
            &&& forall|i: int| 0 <= i < ns0.len() && i != cur ==> #[trigger] ns2[i] == ns0[i]
            &&& forall|p: int|
                0 <= p < 4 && p != q ==> child_of(ns2[cur], p) == child_of(ns0[cur], p)
            &&& ns2[cur].count == n.count
            &&& ns2[cur].sum_x == n.sum_x
            &&& ns2[cur].sum_y == n.sum_y
            &&& ns2[cur].region == n.region
        },
        0 <= i < ns2.len(),
    ensures
        balanced_on_path(ns2, i, cur, c, px, py),
{
    if i == cur {
        lemma_route_cur(ns0, ns2, par, cur, px, py, x, y, k, n, q, c, i);
    } else if i < ns0.len() {
        if i == par {
            lemma_route_par(ns0, ns2, par, cur, px, py, x, y, k, n, q, c, i);
        } else {
            lemma_route_other(ns0, ns2, par, cur, px, py, x, y, k, n, q, c, i);
        }
    }
}

/// An inner node counts the body and passes it to the child `c` of its quadrant.
proof fn lemma_route(
    ns0: Seq<Node>,
    ns2: Seq<Node>,
    par: int,
    cur: int,
    px: int,
    py: int,
    x: Seq<i64>,
    y: Seq<i64>,
    k: int,
    n: Node,
    q: int,
    c: int,
)
    requires
        descent_inv(ns0, par, cur, px, py, x, y, k),
        !is_leaf_spec(ns0[cur]),
        ns0[cur].count <= k,
        n == (Node {
            count: (ns0[cur].count + 1) as usize,
            sum_x: (ns0[cur].sum_x + px) as i128,
            sum_y: (ns0[cur].sum_y + py) as i128,
            ..ns0[cur]
        }),
        0 <= q < 4,
        q == ns0[cur].region.quadrant_of(px, py),
        ns0[cur].region.sub(q as usize).holds(px, py),
        ns2.len() < NO_CHILD,
        links_ok(ns2),
        cur < c < ns2.len(),
        child_of(ns2[cur], q) == c,
        ns2[c].region == ns0[cur].region.sub(q as usize),
        child_of(ns0[cur], q) != NO_CHILD ==> ns2 == ns0.update(cur, n) && c == child_of(
            ns0[cur],
            q,
        ),
        child_of(ns0[cur], q) == NO_CHILD ==> {
            &&& c == ns0.len()
            &&& ns2.len() == ns0.len() + 1
            &&& ns2[c] == empty_node(ns0[cur].region.sub(q as usize))
            &&& forall|i: int| 0 <= i < ns0.len() && i != cur ==> #[trigger] ns2[i] == ns0[i]
            &&& forall|p: int|
                0 <= p < 4 && p != q ==> child_of(ns2[cur], p) == child_of(ns0[cur], p)
            &&& ns2[cur].count == n.count
            &&& ns2[cur].sum_x == n.sum_x
            &&& ns2[cur].sum_y == n.sum_y
            &&& ns2[cur].region == n.region
        },
    ensures
        descent_inv(ns2, cur, c, px, py, x, y, k),
{
    let ns1 = ns0.update(cur, n);
    lemma_replace_node(ns0, cur, n);
    assert(balanced_on_path(ns0, cur, par, cur, px, py));
    let fresh = child_of(ns0[cur], q) == NO_CHILD;
    assert forall|i: int| 0 <= i < ns0.len() && i != cur implies #[trigger] ns2[i] == ns0[i] by {
        if !fresh {
            assert(ns2[i] == ns1[i]);
        }
    }
    assert forall|p: int| 0 <= p < 4 && p != q implies child_of(ns2[cur], p) == child_of(
        ns0[cur],
        p,
    ) by {
        if !fresh {
            assert(ns2[cur] == n);
        }
    }
    assert(ns2[cur].count == n.count && ns2[cur].sum_x == n.sum_x && ns2[cur].sum_y == n.sum_y);
    assert forall|i: int| 0 <= i < ns2.len() implies #[trigger] balanced_on_path(
        ns2,
        i,
        cur,
        c,
        px,
        py,
    ) by {
        lemma_route_at(ns0, ns2, par, cur, px, py, x, y, k, n, q, c, i);
    }
    assert forall|i: int| 0 <= i < ns2.len() implies leaf_ok(#[trigger] ns2[i]) && sums_bounded(
        ns2[i],
    ) && ns2[i].count <= k + 1 && (i == 0 || i == c || ns2[i].count >= 1) by {
        if i < ns0.len() && i != cur {
            assert(ns2[i] == ns0[i]);
        } else if i == cur {
            assert(sums_bounded(ns0[cur]));
            assert(!is_leaf_spec(ns2[cur]));
        }
    }
    assert forall|i: int|
        0 <= i < ns2.len() && is_leaf_spec(#[trigger] ns2[i]) && ns2[i].count == 1 implies placed(
        x,
        y,
        k,
        ns2[i].sum_x as int,
        ns2[i].sum_y as int,
    ) by {
        if i < ns0.len() && i != cur {
            assert(ns2[i] == ns0[i]);
        }
    }
    if cur != 0 {
        assert(ns2[0] == ns0[0]);
    }
    assert(exists|p: int| 0 <= p < 4 && child_of(ns2[cur], p) == c);
}

/// In a built tree every node but the root holds a body, every leaf holds
/// at most one body, and every inner node
/// aggregates exactly its children: its count is theirs summed, and so are
/// its coordinate sums. As a centre of mass is `sum / count`, an inner
/// node's centre of mass is the count-weighted mean of its children's.
pub proof fn lemma_built_tree_shape(t: Tree, x: Seq<i64>, y: Seq<i64>, n: int)
    requires
        built_upto(t, x, y, n),
    ensures
        t.live()[0].count == n,
        forall|i: int| 1 <= i < t.live().len() ==> (#[trigger] t.live()[i]).count >= 1,
        forall|i: int|
            0 <= i < t.live().len() && is_leaf_spec(#[trigger] t.live()[i]) ==> t.live()[i].count
                <= 1,
        forall|i: int|
            0 <= i < t.live().len() && !is_leaf_spec(#[trigger] t.live()[i]) ==> {
                &&& t.live()[i].count == children_count(t.live(), i)
                &&& t.live()[i].sum_x == children_sum_x(t.live(), i)
                &&& t.live()[i].sum_y == children_sum_y(t.live(), i)
            },
{
    assert forall|i: int|
        0 <= i < t.live().len() && is_leaf_spec(#[trigger] t.live()[i]) implies t.live()[i].count
        <= 1 by {
        assert(leaf_ok(t.live()[i]));
    }
    assert forall|i: int|
        0 <= i < t.live().len() && !is_leaf_spec(#[trigger] t.live()[i]) implies {
        &&& t.live()[i].count == children_count(t.live(), i)
        &&& t.live()[i].sum_x == children_sum_x(t.live(), i)
        &&& t.live()[i].sum_y == children_sum_y(t.live(), i)
    } by {
        assert(balanced(t.live(), i));
    }
}

/// Building from the same positions over the same root region always gives
/// the same live arena, whatever the arena held before: the result is
/// `build_spec` of the inputs alone.
pub proof fn lemma_rebuild_identical(t1: Tree, t2: Tree, root: Region, x: Seq<i64>, y: Seq<i64>, n: nat)
    requires
        build_spec(root, x, y, n) == Some(t1.live()),
        build_spec(root, x, y, n) == Some(t2.live()),
    ensures
        t1.live() == t2.live(),
        forall|i: int| 0 <= i < t1.live().len() ==> #[trigger] t1.live()[i] == t2.live()[i],
{
}

/// A tree built from one body is a single occupied leaf, the root, at that body.
pub proof fn lemma_single_body_tree(t: Tree, x: Seq<i64>, y: Seq<i64>)
    requires
        built_upto(t, x, y, 1),
    ensures
        t.num_nodes == 1,
        is_leaf_spec(t.live()[0]),
        t.live()[0].count == 1,
        t.live()[0].sum_x == x[0],
        t.live()[0].sum_y == y[0],
{
    let ns = t.live();
    assert(balanced(ns, 0));
    assert(leaf_ok(ns[0]));
    assert(leaves_placed(ns, x, y, 1));
    if t.num_nodes > 1 {
        assert(has_parent(ns, 1));
        let (i, q) = choose|i: int, q: int| 0 <= i < 1 && 0 <= q < 4 && #[trigger] child_of(ns[i], q) == 1;
        assert(child_of(ns[0], q) == 1);
    }
}

/// A tree built from no bodies is an empty root leaf.
pub proof fn lemma_empty_tree(t: Tree, x: Seq<i64>, y: Seq<i64>)
    requires
        built_upto(t, x, y, 0),
    ensures
        t.num_nodes == 1,
        is_leaf_spec(t.live()[0]),
        t.live()[0].count == 0,
{
    let ns = t.live();
    assert(balanced(ns, 0));
    if t.num_nodes > 1 {
        assert(has_parent(ns, 1));
        let (i, q) = choose|i: int, q: int| 0 <= i < 1 && 0 <= q < 4 && #[trigger] child_of(ns[i], q) == 1;
        assert(child_of(ns[0], q) == 1);
    }
}

impl Tree {
    /// Rebuilds the tree over `self.root` from the bodies at `(x[i], y[i])`,
    /// inserting them in index order. The arena is reset first, so a build
    /// depends on the positions and the root region alone.
    pub fn construct(&mut self, x: &Vec<i64>, y: &Vec<i64>) -> (r: Result<(), BuildError>)
        requires
            old(self).wf(),
            x.len() == y.len(),
        ensures
            final(self).wf(),
            final(self).root == old(self).root,
            r == Err::<(), BuildError>(BuildError::TooManyBodies) <==> x.len() > MAX_BODIES,
            r == Err::<(), BuildError>(BuildError::OutOfRegion) <==> x.len() <= MAX_BODIES
                && !all_inside(old(self).root, x@, y@, x.len() as int),
            r == Err::<(), BuildError>(BuildError::Degenerate) ==> x.len() <= MAX_BODIES
                && all_inside(old(self).root, x@, y@, x.len() as int) && has_duplicate(
                x@,
                y@,
                x.len() as int,
            ),
            x.len() <= MAX_BODIES && all_inside(old(self).root, x@, y@, x.len() as int)
                && !has_duplicate(x@, y@, x.len() as int) ==> r is Ok,
            x.len() <= MAX_BODIES && all_inside(old(self).root, x@, y@, x.len() as int)
                && has_duplicate(x@, y@, x.len() as int) ==> r == Err::<(), BuildError>(
                BuildError::Degenerate,
            ),
            r is Ok ==> built_upto(*final(self), x@, y@, x.len() as int),
            r is Ok ==> build_spec(old(self).root, x@, y@, x.len() as nat) == Some(final(self).live()),
            final(self).nodes@.len() >= old(self).nodes@.len(),
            (final(self).nodes@.len() - old(self).nodes@.len()) % (TREE_GROWTH_INCREMENT as int) == 0,
            r == Err::<(), BuildError>(BuildError::Degenerate) ==> build_spec(
                old(self).root,
                x@,
                y@,
                x.len() as nat,
            ) is None,
    {
        let n = x.len();
        if n > MAX_BODIES {
            return Err(BuildError::TooManyBodies);
        }
        let mut i: usize = 0;
        while i < n
            invariant
                i <= n,
                n == x.len(),
                x.len() == y.len(),
                n <= MAX_BODIES,
                self.wf(),
                self.root == old(self).root,
                self.nodes@ == old(self).nodes@,
                self.num_nodes == old(self).num_nodes,
                all_inside(self.root, x@, y@, i as int),
            decreases n - i,
        {
            if !self.root.contains(x[i], y[i]) {
                return Err(BuildError::OutOfRegion);
            }
            i = i + 1;
        }
        let root = self.root;
        self.reset(root);
        proof {
            let ns = self.live();
            assert(ns.len() == 1);
            assert(tree_ok(ns));
            assert(build_spec(self.root, x@, y@, 0) == Some(ns));
        }
        let mut k: usize = 0;
        while k < n
            invariant
                k <= n,
                n == x.len(),
                x.len() == y.len(),
                n <= MAX_BODIES,
                self.root == old(self).root,
                all_inside(self.root, x@, y@, n as int),
                built_upto(*self, x@, y@, k as int),
                build_spec(self.root, x@, y@, k as nat) == Some(self.live()),
                self.nodes@.len() >= old(self).nodes@.len(),
                (self.nodes@.len() - old(self).nodes@.len()) % (TREE_GROWTH_INCREMENT as int) == 0,
            decreases n - k,
        {
            match self.insert_body(x[k], y[k], Ghost(x@), Ghost(y@), Ghost(k as int)) {
                Ok(()) => {},
                Err(e) => {
                    proof {
                        let j = choose|j: int| 0 <= j < k && x@[j] == x@[k as int] && y@[j] == y@[k as int];
                        assert(0 <= j < k < n && x@[j] == x@[k as int] && y@[j] == y@[k as int]);
                        assert(build_spec(self.root, x@, y@, (k + 1) as nat) is None);
                        lemma_build_none_stays(self.root, x@, y@, (k + 1) as nat, n as nat);
                    }
                    return Err(e);
                },
            }
            k = k + 1;
        }
        proof {
            crate::force::lemma_built_inputs_distinct(*self, x@, y@, n as int);
        }
        Ok(())
    }

    /// Sends the body at `(px, py)`, number `k` of the input, down from the
    /// root: an inner node adds it to its aggregates and passes it on to the
    /// child of its quadrant, an empty leaf takes it, and an occupied leaf
    /// first moves its resident one level down.
    #[verifier::spinoff_prover]
    #[verifier::rlimit(100)]
    fn insert_body(
        &mut self,
        px: i64,
        py: i64,
        Ghost(x): Ghost<Seq<i64>>,
        Ghost(y): Ghost<Seq<i64>>,
        Ghost(k): Ghost<int>,
    ) -> (r: Result<(), BuildError>)
        requires
            built_upto(*old(self), x, y, k),
            0 <= k < x.len(),
            x.len() == y.len(),
            k < MAX_BODIES,
            x[k] == px,
            y[k] == py,
            old(self).root.holds(px as int, py as int),
        ensures
            final(self).wf(),
            r is Ok ==> built_upto(*final(self), x, y, k + 1),
            r is Err ==> r == Err::<(), BuildError>(BuildError::Degenerate) && exists|j: int|
                0 <= j < k && x[j] == px && y[j] == py,
            r is Ok ==> descend(old(self).live(), 0, px as int, py as int) == Some(final(self).live()),
            r is Err ==> descend(old(self).live(), 0, px as int, py as int) is None,
            final(self).root == old(self).root,
            final(self).nodes@.len() >= old(self).nodes@.len(),
            (final(self).nodes@.len() - old(self).nodes@.len()) % (TREE_GROWTH_INCREMENT as int) == 0,
    {
        let ghost target = descend(self.live(), 0, px as int, py as int);
        let ghost start = self.num_nodes as int;
        let ghost m0 = descent_measure(self.live()[0]);
        proof {
            lemma_region_level(self.root);
            lemma_descent_start(self.live(), x, y, k);
        }
        let mut cur: usize = ROOT_NODE_INDEX;
        let ghost mut par: int = -1;
        let ghost mut blocks: int = 0;
        loop
            invariant
                self.wf(),
                self.root == old(self).root,
                cur < self.num_nodes,
                descent_inv(self.live(), par, cur as int, px as int, py as int, x, y, k),
                descend(self.live(), cur as int, px as int, py as int) == target,
                target == descend(old(self).live(), 0, px as int, py as int),
                blocks >= 0,
                self.nodes@.len() == old(self).nodes@.len() + TREE_GROWTH_INCREMENT * blocks,
                self.num_nodes + descent_measure(self.live()[cur as int]) <= start + m0,
                m0 <= 83,
                start <= 1 + NODES_PER_BODY * k,
                k < MAX_BODIES,
            decreases descent_measure(self.live()[cur as int]),
        {
            let ghost ns0 = self.live();
            let node = self.nodes[cur];
            assert(node == ns0[cur as int]);
            proof {
                lemma_cur_count(ns0, par, cur as int, px as int, py as int, x, y, k);
                assert(leaf_ok(ns0[cur as int]));
                assert(sums_bounded(ns0[cur as int]));
            }
            if node.is_leaf() {
                if node.count == 0 {
                    let mut n = node;
                    n.count = 1;
                    n.sum_x = px as i128;
                    n.sum_y = py as i128;
                    proof {
                        lemma_place(ns0, par, cur as int, px as int, py as int, x, y, k, n);
                    }
                    self.set_node(cur, n);
                    assert(n == with_body(ns0[cur as int], px as int, py as int));
                    proof {
                        lemma_whole_blocks(self.nodes@.len() - old(self).nodes@.len(), blocks);
                    }
                    return Ok(());
                }
                if node.region.size == 1 {
                    proof {
                        let j = choose|j: int|
                            0 <= j < k && x[j] == node.sum_x && y[j] == node.sum_y;
                        crate::region::lemma_unit_region(
                            node.region,
                            px as int,
                            py as int,
                            node.sum_x as int,
                            node.sum_y as int,
                        );
                        assert(0 <= j < k && x[j] == px && y[j] == py);
                        lemma_whole_blocks(self.nodes@.len() - old(self).nodes@.len(), blocks);
                    }
                    return Err(BuildError::Degenerate);
                }
                // the resident moves into the child of its quadrant
                let rx = node.sum_x as i64;
                let ry = node.sum_y as i64;
                proof {
                    lemma_quadrant_holds(node.region, rx as int, ry as int);
                    lemma_sub_wf(node.region, node.region.quadrant_of(rx as int, ry as int));
                }
                let q = node.region.quadrant(rx, ry);
                let ghost len_before = self.nodes@.len();
                let c = self.get_child_node(cur, q);
                proof {
                    if self.nodes@.len() != len_before {
                        blocks = blocks + 1;
                    }
                }
                let ghost ns1 = self.live();
                let mut cn = self.nodes[c];
                assert(cn == ns1[c as int]);
                cn.count = 1;
                cn.sum_x = node.sum_x;
                cn.sum_y = node.sum_y;
                proof {
                    assert forall|i: int| 0 <= i < ns0.len() && i != cur implies #[trigger] ns1[i]
                        == ns0[i] by {}
                    lemma_split(ns0, ns1, par, cur as int, px as int, py as int, x, y, k, q as int, cn);
                }
                self.set_node(c, cn);
                proof {
                    let ns2 = self.live();
                    assert(attach(ns0, cur as int, q as int) == (ns1, c as int));
                    assert(cn == with_body(ns1[c as int], node.sum_x as int, node.sum_y as int));
                    assert(descent_measure(ns2[cur as int]) < descent_measure(ns0[cur as int]));
                    assert(descend(ns0, cur as int, px as int, py as int) == descend(ns2, cur as int, px as int, py as int));
                }
            } else {
                let mut n = node;
                n.count = node.count + 1;
                n.sum_x = node.sum_x + px as i128;
                n.sum_y = node.sum_y + py as i128;
                proof {
                    lemma_replace_node(ns0, cur as int, n);
                    lemma_quadrant_holds_inner(ns0, cur as int, px as int, py as int);
                }
                self.set_node(cur, n);
                let q = node.region.quadrant(px, py);
                let ghost len_before = self.nodes@.len();
                let c = self.get_child_node(cur, q);
                proof {
                    if self.nodes@.len() != len_before {
                        blocks = blocks + 1;
                    }
                    let ns2 = self.live();
                    if child_of(ns0[cur as int], q as int) == NO_CHILD {
                        assert forall|i: int| 0 <= i < ns0.len() && i != cur implies #[trigger] ns2[i]
                            == ns0[i] by {}
                    }
                    lemma_route(ns0, ns2, par, cur as int, px as int, py as int, x, y, k, n, q as int, c as int);
                    lemma_sub_wf(node.region, q);
                    let ns1 = ns0.update(cur as int, n);
                    assert(n == counted(ns0[cur as int], px as int, py as int));
                    assert(child_of(ns1[cur as int], q as int) == child_of(ns0[cur as int], q as int));
                    assert(attach(ns1, cur as int, q as int) == (ns2, c as int));
                    assert(descent_measure(ns2[c as int]) < descent_measure(ns0[cur as int]));
                    assert(descend(ns0, cur as int, px as int, py as int) == descend(ns2, c as int, px as int, py as int));
                    par = cur as int;
                }
                cur = c;
            }
        }
    }

    /// Handle of the child of `parent` in quadrant `q`, allocating an empty
    /// leaf over that quadrant when there is none.
    fn get_child_node(&mut self, parent: usize, q: usize) -> (c: usize)
        requires
            old(self).wf(),
            links_ok(old(self).live()),
            parent < old(self).num_nodes,
            q < 4,
            old(self).live()[parent as int].region.size >= 2,
            old(self).num_nodes < MAX_NODES,
        ensures
            final(self).wf(),
            links_ok(final(self).live()),
            final(self).root == old(self).root,
            c < final(self).num_nodes,
            c != NO_CHILD,
            c > parent,
            final(self).nodes@.len() == old(self).nodes@.len() || (old(self).num_nodes
                == old(self).nodes@.len() && final(self).nodes@.len() == old(self).nodes@.len()
                + TREE_GROWTH_INCREMENT),
            forall|i: int|
                0 <= i < old(self).nodes@.len() && i != parent && i != c
                    ==> #[trigger] final(self).nodes@[i] == old(self).nodes@[i],
            forall|i: int|
                old(self).nodes@.len() <= i < final(self).nodes@.len() && i != c
                    ==> #[trigger] final(self).nodes@[i] == empty_node(old(self).root),
            child_of(final(self).live()[parent as int], q as int) == c,
            final(self).live()[c as int].region == old(self).live()[parent as int].region.sub(q),
            child_of(old(self).live()[parent as int], q as int) == NO_CHILD ==> {
                &&& final(self).num_nodes == old(self).num_nodes + 1
                &&& c == old(self).num_nodes
                &&& final(self).live() == old(self).live().push(
                    empty_node(old(self).live()[parent as int].region.sub(q)),
                ).update(
                    parent as int,
                    final(self).live()[parent as int],
                )
                &&& forall|p: int|
                    0 <= p < 4 && p != q ==> child_of(final(self).live()[parent as int], p)
                        == child_of(old(self).live()[parent as int], p)
                &&& final(self).live()[parent as int].count == old(self).live()[parent as int].count
                &&& final(self).live()[parent as int].sum_x == old(self).live()[parent as int].sum_x
                &&& final(self).live()[parent as int].sum_y == old(self).live()[parent as int].sum_y
                &&& final(self).live()[parent as int].region == old(self).live()[parent as int].region
                &&& final(self).live()[parent as int] == set_child_spec(old(self).live()[parent as int], q as int, c)
            },
            child_of(old(self).live()[parent as int], q as int) != NO_CHILD ==> {
                &&& final(self).num_nodes == old(self).num_nodes
                &&& final(self).live() == old(self).live()
                &&& c == child_of(old(self).live()[parent as int], q as int)
            },
    {
        let ghost ns0 = self.live();
        let existing = self.nodes[parent].child(q);
        if existing != NO_CHILD {
            return existing;
        }
        let region = self.nodes[parent].region;
        let sub = region.child(q);
        let c = self.allocate_node(sub);
        let ghost ns1 = self.live();
        let mut pn = self.nodes[parent];
        assert(pn == ns1[parent as int]);
        let ghost pn0 = pn;
        pn.set_child(q, c);
        assert(pn == set_child_spec(pn0, q as int, c)) by {
            if q == 0 {
                assert(child_of(pn, 1) == child_of(pn0, 1));
                assert(child_of(pn, 2) == child_of(pn0, 2));
                assert(child_of(pn, 3) == child_of(pn0, 3));
            } else if q == 1 {
                assert(child_of(pn, 0) == child_of(pn0, 0));
                assert(child_of(pn, 2) == child_of(pn0, 2));
                assert(child_of(pn, 3) == child_of(pn0, 3));
            } else if q == 2 {
                assert(child_of(pn, 0) == child_of(pn0, 0));
                assert(child_of(pn, 1) == child_of(pn0, 1));
                assert(child_of(pn, 3) == child_of(pn0, 3));
            } else {
                assert(child_of(pn, 0) == child_of(pn0, 0));
                assert(child_of(pn, 1) == child_of(pn0, 1));
                assert(child_of(pn, 2) == child_of(pn0, 2));
            }
        }
        self.set_node(parent, pn);
        let ghost ns2 = self.live();
        proof {
            assert(ns1 == ns0.push(empty_node(sub)));
            assert(ns2 == ns1.update(parent as int, pn));
            assert forall|i: int| 0 <= i < ns2.len() implies (#[trigger] ns2[i]).region.wf() by {
                assert(ns2[i].region == ns1[i].region);
                if i < ns0.len() {
                    assert(ns2[i].region == ns0[i].region);
                }
            }
            assert forall|i: int, p: int|
                0 <= i < ns2.len() && 0 <= p < 4 && #[trigger] child_of(ns2[i], p)
                    != NO_CHILD implies {
                &&& i < child_of(ns2[i], p) < ns2.len()
                &&& ns2[i].region.size >= 2
                &&& ns2[child_of(ns2[i], p) as int].region == ns2[i].region.sub(p as usize)
            } by {
                if i == parent && p == q {
                } else if i < ns0.len() {
                    assert(ns2[i].region == ns1[i].region);
                    assert(child_of(ns2[i], p) == child_of(ns0[i], p));
                    assert(ns2[child_of(ns2[i], p) as int].region == ns1[child_of(
                        ns0[i],
                        p,
                    ) as int].region);
                    assert(ns2[child_of(ns2[i], p) as int].region == ns0[child_of(
                        ns0[i],
                        p,
                    ) as int].region);
                }
            }
            assert forall|i1: int, q1: int, i2: int, q2: int|
                0 <= i1 < ns2.len() && 0 <= q1 < 4 && 0 <= i2 < ns2.len() && 0 <= q2 < 4
                    && #[trigger] child_of(ns2[i1], q1) == #[trigger] child_of(ns2[i2], q2)
                    && child_of(ns2[i1], q1) != NO_CHILD implies i1 == i2 && q1 == q2 by {
                if !(i1 == parent && q1 == q) && i1 < ns0.len() {
                    assert(child_of(ns2[i1], q1) == child_of(ns0[i1], q1));
                }
                if !(i2 == parent && q2 == q) && i2 < ns0.len() {
                    assert(child_of(ns2[i2], q2) == child_of(ns0[i2], q2));
                }
            }
            assert forall|j: int| 1 <= j < ns2.len() implies #[trigger] has_parent(ns2, j) by {
                if j == c {
                    assert(child_of(ns2[parent as int], q as int) == j);
                } else {
                    assert(has_parent(ns0, j));
                    let (i, p) = choose|i: int, p: int|
                        0 <= i < j && 0 <= p < 4 && #[trigger] child_of(ns0[i], p) == j;
                    assert(child_of(ns2[i], p) == j);
                }
            }
        }
        c
    }
}

} // verus!
