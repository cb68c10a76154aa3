//! The node arena: quadtree nodes in a flat, growable vector addressed by handle.
use vstd::prelude::*;
use crate::region::{Region, COORD_LIMIT};

verus! {

/// Handle that marks an absent child; no node ever has it.
pub const NO_CHILD: usize = usize::MAX;

/// Handle of the root node.
pub const ROOT_NODE_INDEX: usize = 0;

/// Most live nodes an arena holds.
pub const MAX_NODES: usize = 1409286145;

/// Slots added to the arena each time it runs out of room.
pub const TREE_GROWTH_INCREMENT: usize = 100;

/// One square of the quadtree. The bodies below it are aggregated by their
/// count and by the sums of their coordinates, so that the centre of mass is
/// `(sum_x / count, sum_y / count)` exactly.
#[derive(Clone, Copy, Debug, PartialEq, Eq, Structural)]
pub struct Node {
    pub sum_x: i128,
    pub sum_y: i128,
    pub count: usize,
    pub top_left: usize,
    pub top_right: usize,
    pub bottom_left: usize,
    pub bottom_right: usize,
    pub region: Region,
}

/// The child handle of `n` in quadrant `q`.
pub open spec fn child_of(n: Node, q: int) -> usize {
    if q == 0 {
        n.top_left
    } else if q == 1 {
        n.top_right
    } else if q == 2 {
        n.bottom_left
    } else {
        n.bottom_right
    }
}

pub open spec fn is_leaf_spec(n: Node) -> bool {
    &&& n.top_left == NO_CHILD
    &&& n.top_right == NO_CHILD
    &&& n.bottom_left == NO_CHILD
    &&& n.bottom_right == NO_CHILD
}

/// Count of the node at handle `h`, or 0 for an absent child.
pub open spec fn count_at(ns: Seq<Node>, h: usize) -> int {
    if h == NO_CHILD { 0 } else { ns[h as int].count as int }
}

pub open spec fn sum_x_at(ns: Seq<Node>, h: usize) -> int {
    if h == NO_CHILD { 0 } else { ns[h as int].sum_x as int }
}

pub open spec fn sum_y_at(ns: Seq<Node>, h: usize) -> int {
    if h == NO_CHILD { 0 } else { ns[h as int].sum_y as int }
}

pub open spec fn children_count(ns: Seq<Node>, i: int) -> int {
    count_at(ns, child_of(ns[i], 0)) + count_at(ns, child_of(ns[i], 1)) + count_at(
        ns,
        child_of(ns[i], 2),
    ) + count_at(ns, child_of(ns[i], 3))
}

pub open spec fn children_sum_x(ns: Seq<Node>, i: int) -> int {
    sum_x_at(ns, child_of(ns[i], 0)) + sum_x_at(ns, child_of(ns[i], 1)) + sum_x_at(
        ns,
        child_of(ns[i], 2),
    ) + sum_x_at(ns, child_of(ns[i], 3))
}

pub open spec fn children_sum_y(ns: Seq<Node>, i: int) -> int {
    sum_y_at(ns, child_of(ns[i], 0)) + sum_y_at(ns, child_of(ns[i], 1)) + sum_y_at(
        ns,
        child_of(ns[i], 2),
    ) + sum_y_at(ns, child_of(ns[i], 3))
}

/// The shape of the arena: every child handle of a live node is absent or a
/// later live node covering the matching quadrant, no node has two parents,
/// and every live node but the root has one.
pub open spec fn links_ok(ns: Seq<Node>) -> bool {
    &&& ns.len() >= 1
    &&& forall|i: int| 0 <= i < ns.len() ==> (#[trigger] ns[i]).region.wf()
    &&& forall|i: int, q: int|
        0 <= i < ns.len() && 0 <= q < 4 && #[trigger] child_of(ns[i], q) != NO_CHILD ==> {
            &&& i < child_of(ns[i], q) < ns.len()
            &&& ns[i].region.size >= 2
            &&& ns[child_of(ns[i], q) as int].region == ns[i].region.sub(q as usize)
        }
    &&& forall|i1: int, q1: int, i2: int, q2: int|
        0 <= i1 < ns.len() && 0 <= q1 < 4 && 0 <= i2 < ns.len() && 0 <= q2 < 4
            && #[trigger] child_of(ns[i1], q1) == #[trigger] child_of(ns[i2], q2) && child_of(
            ns[i1],
            q1,
        ) != NO_CHILD ==> i1 == i2 && q1 == q2
    &&& forall|j: int| 1 <= j < ns.len() ==> #[trigger] has_parent(ns, j)
}

/// Some earlier node names `j` as a child.
pub open spec fn has_parent(ns: Seq<Node>, j: int) -> bool {
    exists|i: int, q: int| 0 <= i < j && 0 <= q < 4 && #[trigger] child_of(ns[i], q) == j
}

/// A leaf is empty, or holds one body inside its square.
pub open spec fn leaf_ok(n: Node) -> bool {
    is_leaf_spec(n) ==> {
        ||| n.count == 0 && n.sum_x == 0 && n.sum_y == 0
        ||| n.count == 1 && n.region.holds(n.sum_x as int, n.sum_y as int)
    }
}

/// An inner node aggregates exactly its children.
pub open spec fn balanced(ns: Seq<Node>, i: int) -> bool {
    !is_leaf_spec(ns[i]) ==> {
        &&& ns[i].count == children_count(ns, i)
        &&& ns[i].sum_x == children_sum_x(ns, i)
        &&& ns[i].sum_y == children_sum_y(ns, i)
        &&& ns[i].count >= 2
    }
}

/// The coordinate sums stay within what `count` bodies inside the limits can reach.
pub open spec fn sums_bounded(n: Node) -> bool {
    &&& -(n.count * COORD_LIMIT) <= n.sum_x <= n.count * COORD_LIMIT
    &&& -(n.count * COORD_LIMIT) <= n.sum_y <= n.count * COORD_LIMIT
}

/// A built quadtree: its shape is sound, every leaf holds at most one body,
/// and every inner node's count and coordinate sums are those of its children.
pub open spec fn tree_ok(ns: Seq<Node>) -> bool {
    &&& links_ok(ns)
    &&& forall|i: int| 0 <= i < ns.len() ==> leaf_ok(#[trigger] ns[i])
    &&& forall|i: int| 0 <= i < ns.len() ==> #[trigger] balanced(ns, i)
    &&& forall|i: int| 0 <= i < ns.len() ==> sums_bounded(#[trigger] ns[i])
}

pub open spec fn empty_node(region: Region) -> Node {
    Node {
        sum_x: 0,
        sum_y: 0,
        count: 0,
        top_left: NO_CHILD,
        top_right: NO_CHILD,
        bottom_left: NO_CHILD,
        bottom_right: NO_CHILD,
        region,
    }
}

/// Replacing node `h` by one with the same links and square keeps the shape
/// of the arena, and changes only the aggregates of the one parent of `h`.
pub proof fn lemma_replace_node(ns: Seq<Node>, h: int, n: Node)
    requires
        links_ok(ns),
        0 <= h < ns.len(),
        h < NO_CHILD,
        n.region == ns[h].region,
        forall|q: int| 0 <= q < 4 ==> child_of(n, q) == child_of(ns[h], q),
    ensures
        links_ok(ns.update(h, n)),
        forall|i: int, q: int|
            0 <= i < ns.len() && 0 <= q < 4 ==> #[trigger] child_of(ns.update(h, n)[i], q)
                == child_of(ns[i], q),
        forall|i: int|
            0 <= i < ns.len() && i != h ==> #[trigger] ns.update(h, n)[i] == ns[i],
        forall|i: int|
            0 <= i < ns.len() && !(exists|q: int| 0 <= q < 4 && child_of(ns[i], q) == h) ==> {
                &&& #[trigger] children_count(ns.update(h, n), i) == children_count(ns, i)
                &&& children_sum_x(ns.update(h, n), i) == children_sum_x(ns, i)
                &&& children_sum_y(ns.update(h, n), i) == children_sum_y(ns, i)
            },
        forall|i: int, q: int|
            0 <= i < ns.len() && 0 <= q < 4 && #[trigger] child_of(ns[i], q) == h ==> {
                &&& children_count(ns.update(h, n), i) == children_count(ns, i) - ns[h].count
                    + n.count
                &&& children_sum_x(ns.update(h, n), i) == children_sum_x(ns, i) - ns[h].sum_x
                    + n.sum_x
                &&& children_sum_y(ns.update(h, n), i) == children_sum_y(ns, i) - ns[h].sum_y
                    + n.sum_y
            },
{
    let ns2 = ns.update(h, n);
    assert forall|i: int, q: int|
        0 <= i < ns.len() && 0 <= q < 4 implies #[trigger] child_of(ns2[i], q) == child_of(
        ns[i],
        q,
    ) by {
        if i == h {
        }
    }
    assert forall|i: int| 0 <= i < ns2.len() implies (#[trigger] ns2[i]).region.wf() by {
        assert(ns2[i].region == ns[i].region);
    }
    assert forall|i: int, q: int|
        0 <= i < ns2.len() && 0 <= q < 4 && #[trigger] child_of(ns2[i], q) != NO_CHILD implies {
        &&& i < child_of(ns2[i], q) < ns2.len()
        &&& ns2[i].region.size >= 2
        &&& ns2[child_of(ns2[i], q) as int].region == ns2[i].region.sub(q as usize)
    } by {
        assert(child_of(ns2[i], q) == child_of(ns[i], q));
        assert(ns2[i].region == ns[i].region);
        assert(ns2[child_of(ns2[i], q) as int].region == ns[child_of(ns[i], q) as int].region);
    }
    assert forall|i1: int, q1: int, i2: int, q2: int|
        0 <= i1 < ns2.len() && 0 <= q1 < 4 && 0 <= i2 < ns2.len() && 0 <= q2 < 4
            && #[trigger] child_of(ns2[i1], q1) == #[trigger] child_of(ns2[i2], q2) && child_of(
            ns2[i1],
            q1,
        ) != NO_CHILD implies i1 == i2 && q1 == q2 by {
        assert(child_of(ns2[i1], q1) == child_of(ns[i1], q1));
        assert(child_of(ns2[i2], q2) == child_of(ns[i2], q2));
    }
    assert forall|j: int| 1 <= j < ns2.len() implies #[trigger] has_parent(ns2, j) by {
        assert(has_parent(ns, j));
        let (i, p) = choose|i: int, p: int|
            0 <= i < j && 0 <= p < 4 && #[trigger] child_of(ns[i], p) == j;
        assert(child_of(ns2[i], p) == j);
    }
    assert forall|i: int|
        0 <= i < ns.len() && !(exists|q: int| 0 <= q < 4 && child_of(ns[i], q) == h) implies {
        &&& #[trigger] children_count(ns2, i) == children_count(ns, i)
        &&& children_sum_x(ns2, i) == children_sum_x(ns, i)
        &&& children_sum_y(ns2, i) == children_sum_y(ns, i)
    } by {
        assert(child_of(ns[i], 0) != h);
        assert(child_of(ns[i], 1) != h);
        assert(child_of(ns[i], 2) != h);
        assert(child_of(ns[i], 3) != h);
        assert(child_of(ns2[i], 0) == child_of(ns[i], 0));
        assert(child_of(ns2[i], 1) == child_of(ns[i], 1));
        assert(child_of(ns2[i], 2) == child_of(ns[i], 2));
        assert(child_of(ns2[i], 3) == child_of(ns[i], 3));
    }
    assert forall|i: int, q: int|
        0 <= i < ns.len() && 0 <= q < 4 && #[trigger] child_of(ns[i], q) == h implies {
        &&& children_count(ns2, i) == children_count(ns, i) - ns[h].count + n.count
        &&& children_sum_x(ns2, i) == children_sum_x(ns, i) - ns[h].sum_x + n.sum_x
        &&& children_sum_y(ns2, i) == children_sum_y(ns, i) - ns[h].sum_y + n.sum_y
    } by {
        assert(child_of(ns2[i], 0) == child_of(ns[i], 0));
        assert(child_of(ns2[i], 1) == child_of(ns[i], 1));
        assert(child_of(ns2[i], 2) == child_of(ns[i], 2));
        assert(child_of(ns2[i], 3) == child_of(ns[i], 3));
        assert forall|p: int| 0 <= p < 4 && p != q implies child_of(ns[i], p) != h by {
            if child_of(ns[i], p) == h {
                assert(child_of(ns[i], p) == child_of(ns[i], q));
            }
        }
    }
}

impl Node {
    /// An empty leaf covering `region`.
    pub fn new(region: Region) -> (r: Node)
        ensures
            r == empty_node(region),
    {
        Node {
            sum_x: 0,
            sum_y: 0,
            count: 0,
            top_left: NO_CHILD,
            top_right: NO_CHILD,
            bottom_left: NO_CHILD,
            bottom_right: NO_CHILD,
            region,
        }
    }

    pub fn is_leaf(&self) -> (r: bool)
        ensures
            r == is_leaf_spec(*self),
    {
        self.top_left == NO_CHILD && self.top_right == NO_CHILD && self.bottom_left == NO_CHILD
            && self.bottom_right == NO_CHILD
    }

    pub fn child(&self, q: usize) -> (r: usize)
        requires
            q < 4,
        ensures
            r == child_of(*self, q as int),
    {
        if q == 0 {
            self.top_left
        } else if q == 1 {
            self.top_right
        } else if q == 2 {
            self.bottom_left
        } else {
            self.bottom_right
        }
    }

    pub fn set_child(&mut self, q: usize, h: usize)
        requires
            q < 4,
        ensures
            forall|p: int| 0 <= p < 4 && p != q ==> child_of(*final(self), p) == child_of(*old(self), p),
            child_of(*final(self), q as int) == h,
            final(self).count == old(self).count,
            final(self).sum_x == old(self).sum_x,
            final(self).sum_y == old(self).sum_y,
            final(self).region == old(self).region,
    {
        if q == 0 {
            self.top_left = h;
        } else if q == 1 {
            self.top_right = h;
        } else if q == 2 {
            self.bottom_left = h;
        } else {
            self.bottom_right = h;
        }
    }
}

/// The arena. Slots `0 .. num_nodes` are the live tree of the last build, the
/// root at `ROOT_NODE_INDEX`; the slots after them are spare capacity.
pub struct Tree {
    pub nodes: Vec<Node>,
    pub num_nodes: usize,
    pub root: Region,
}

impl Tree {
    /// The live nodes.
    pub open spec fn live(&self) -> Seq<Node> {
        self.nodes@.subrange(0, self.num_nodes as int)
    }

    /// Slot bookkeeping: the root exists and the live prefix lies in the vector.
    pub open spec fn wf(&self) -> bool {
        &&& 1 <= self.num_nodes <= self.nodes@.len()
        &&& self.nodes@.len() <= MAX_NODES + TREE_GROWTH_INCREMENT
        &&& self.root.wf()
        &&& self.nodes@[0].region == self.root
    }

    /// An arena holding only an empty root over `root`.
    pub fn new(root: Region) -> (t: Tree)
        requires
            root.wf(),
        ensures
            t.wf(),
            t.root == root,
            t.num_nodes == 1,
            t.live() == seq![empty_node(root)],
    {
        let mut nodes: Vec<Node> = Vec::with_capacity(1);
        nodes.push(Node::new(root));
        let t = Tree { nodes, num_nodes: 1, root };
        assert(t.live() =~= seq![empty_node(root)]);
        t
    }

    /// Extends the vector by `TREE_GROWTH_INCREMENT` spare slots.
    fn grow(&mut self)
        requires
            old(self).nodes@.len() + TREE_GROWTH_INCREMENT <= usize::MAX,
        ensures
            final(self).nodes@.len() == old(self).nodes@.len() + TREE_GROWTH_INCREMENT,
            final(self).nodes@.subrange(0, old(self).nodes@.len() as int) == old(self).nodes@,
            forall|i: int|
                old(self).nodes@.len() <= i < final(self).nodes@.len() ==> #[trigger] final(self).nodes@[i]
                    == empty_node(old(self).root),
            final(self).num_nodes == old(self).num_nodes,
            final(self).root == old(self).root,
    {
        self.nodes.reserve(TREE_GROWTH_INCREMENT);
        let mut k: usize = 0;
        while k < TREE_GROWTH_INCREMENT
            invariant
                k <= TREE_GROWTH_INCREMENT,
                self.nodes@.len() == old(self).nodes@.len() + k,
                self.nodes@.subrange(0, old(self).nodes@.len() as int) == old(self).nodes@,
                forall|i: int|
                    old(self).nodes@.len() <= i < self.nodes@.len() ==> #[trigger] self.nodes@[i]
                        == empty_node(old(self).root),
                self.num_nodes == old(self).num_nodes,
                self.root == old(self).root,
            decreases TREE_GROWTH_INCREMENT - k,
        {
            self.nodes.push(Node::new(self.root));
            k = k + 1;
            assert(self.nodes@.subrange(0, old(self).nodes@.len() as int) =~= old(self).nodes@);
        }
    }

    /// Turns slot `i` into an empty leaf over `region`.
    fn zero_node(&mut self, i: usize, region: Region)
        requires
            i < old(self).nodes@.len(),
        ensures
            final(self).nodes@ == old(self).nodes@.update(i as int, empty_node(region)),
            final(self).num_nodes == old(self).num_nodes,
            final(self).root == old(self).root,
    {
        self.nodes.set(i, Node::new(region));
    }

    /// Forgets every node but an empty root over `root`; the vector keeps its slots.
    pub fn reset(&mut self, root: Region)
        requires
            root.wf(),
            1 <= old(self).nodes@.len() <= MAX_NODES + TREE_GROWTH_INCREMENT,
        ensures
            final(self).wf(),
            final(self).root == root,
            final(self).live() == seq![empty_node(root)],
            final(self).nodes@.len() == old(self).nodes@.len(),
    {
        self.zero_node(ROOT_NODE_INDEX, root);
        self.num_nodes = 1;
        self.root = root;
        assert(self.live() =~= seq![empty_node(root)]);
    }

    /// Appends an empty leaf over `region` to the live nodes and returns its
    /// handle, growing the vector when no spare slot is left.
    pub fn allocate_node(&mut self, region: Region) -> (h: usize)
        requires
            old(self).wf(),
            old(self).num_nodes < MAX_NODES,
        ensures
            final(self).wf(),
            h == old(self).num_nodes,
            final(self).num_nodes == old(self).num_nodes + 1,
            final(self).root == old(self).root,
            final(self).live() == old(self).live().push(empty_node(region)),
            old(self).num_nodes < old(self).nodes@.len() ==> final(self).nodes@.len() == old(self).nodes@.len(),
            old(self).num_nodes == old(self).nodes@.len() ==> final(self).nodes@.len() == old(self).nodes@.len()
                + TREE_GROWTH_INCREMENT,
            forall|i: int|
                0 <= i < old(self).nodes@.len() && i != h ==> #[trigger] final(self).nodes@[i]
                    == old(self).nodes@[i],
            forall|i: int|
                old(self).nodes@.len() <= i < final(self).nodes@.len() && i != h
                    ==> #[trigger] final(self).nodes@[i] == empty_node(old(self).root),
    {
        let h = self.num_nodes;
        if h == self.nodes.len() {
            self.grow();
            assert forall|i: int| 0 <= i < old(self).nodes@.len() implies #[trigger] self.nodes@[i]
                == old(self).nodes@[i] by {
                assert(self.nodes@.subrange(0, old(self).nodes@.len() as int)[i] == self.nodes@[i]);
            }
        }
        assert(self.nodes@.subrange(0, h as int) == old(self).live());
        self.zero_node(h, region);
        self.num_nodes = h + 1;
        assert(self.live() =~= old(self).live().push(empty_node(region)));
        h
    }

    /// Replaces the live node at handle `h`.
    pub fn set_node(&mut self, h: usize, n: Node)
        requires
            old(self).wf(),
            h < old(self).num_nodes,
            h == 0 ==> n.region == old(self).root,
        ensures
            final(self).wf(),
            final(self).live() == old(self).live().update(h as int, n),
            final(self).nodes@ == old(self).nodes@.update(h as int, n),
            final(self).num_nodes == old(self).num_nodes,
            final(self).nodes@.len() == old(self).nodes@.len(),
            final(self).root == old(self).root,
    {
        self.nodes.set(h, n);
        assert(self.live() =~= old(self).live().update(h as int, n));
    }

    /// The live node at handle `h`.
    pub fn node(&self, h: usize) -> (n: &Node)
        requires
            h < self.num_nodes <= self.nodes@.len(),
        ensures
            *n == self.live()[h as int],
    {
        &self.nodes[h]
    }
}

} // verus!
