//! Square regions of the lattice and their four quadrants.
use vstd::prelude::*;

verus! {

/// Largest magnitude of a region corner, and so of any coordinate the tree holds.
pub const COORD_LIMIT: i64 = 1099511627776;

/// Quadrant numbers, in the order of a node's child handles.
pub const TOP_LEFT: usize = 0;
pub const TOP_RIGHT: usize = 1;
pub const BOTTOM_LEFT: usize = 2;
pub const BOTTOM_RIGHT: usize = 3;

/// `s` is a power of two (1, 2, 4, ...).
pub open spec fn is_pow2(s: int) -> bool
    decreases s,
{
    if s <= 1 {
        s == 1
    } else {
        s % 2 == 0 && is_pow2(s / 2)
    }
}

/// A square of side `size` on the lattice. It holds the points with
/// `x0 < x <= x0 + size` and `y0 <= y < y0 + size`: a point on the vertical
/// centre line belongs to the left half and one on the horizontal centre line
/// to the top half, at every level of the tree.
#[derive(Clone, Copy, Debug, PartialEq, Eq, Structural)]
pub struct Region {
    pub x0: i64,
    pub y0: i64,
    pub size: i64,
}

impl Region {
    /// The size is a power of two and the square lies within the coordinate limits.
    pub open spec fn wf(self) -> bool {
        &&& is_pow2(self.size as int)
        &&& -COORD_LIMIT <= self.x0
        &&& self.x0 + self.size <= COORD_LIMIT
        &&& -COORD_LIMIT <= self.y0
        &&& self.y0 + self.size <= COORD_LIMIT
    }

    pub open spec fn holds(self, x: int, y: int) -> bool {
        self.x0 < x <= self.x0 + self.size && self.y0 <= y < self.y0 + self.size
    }

    pub open spec fn mid_x(self) -> int {
        self.x0 + self.size / 2
    }

    pub open spec fn mid_y(self) -> int {
        self.y0 + self.size / 2
    }

    /// The quadrant of the point relative to the centre: ties go left and top.
    pub open spec fn quadrant_of(self, x: int, y: int) -> usize {
        if x <= self.mid_x() {
            if y >= self.mid_y() { TOP_LEFT } else { BOTTOM_LEFT }
        } else {
            if y >= self.mid_y() { TOP_RIGHT } else { BOTTOM_RIGHT }
        }
    }

    /// The quadrant `q` as a region of half the side.
    pub open spec fn sub(self, q: usize) -> Region {
        let h = (self.size / 2) as i64;
        Region {
            x0: if q == TOP_LEFT || q == BOTTOM_LEFT { self.x0 } else { (self.x0 + h) as i64 },
            y0: if q == TOP_LEFT || q == TOP_RIGHT { (self.y0 + h) as i64 } else { self.y0 },
            size: h,
        }
    }

    /// Builds a region, or `None` where the size is no power of two or the
    /// square leaves the coordinate limits.
    pub fn new(x0: i64, y0: i64, size: i64) -> (r: Option<Region>)
        ensures
            r is Some <==> (Region { x0, y0, size }).wf(),
            r is Some ==> r->0 == (Region { x0, y0, size }),
    {
        if size < 1 || size > 2 * COORD_LIMIT {
            proof {
                reveal_with_fuel(is_pow2, 1);
            }
            return None;
        }
        if x0 < -COORD_LIMIT || x0 > COORD_LIMIT - size || y0 < -COORD_LIMIT || y0 > COORD_LIMIT
            - size {
            return None;
        }
        if is_power_of_two(size) {
            Some(Region { x0, y0, size })
        } else {
            None
        }
    }

    pub fn contains(&self, x: i64, y: i64) -> (r: bool)
        ensures
            r == self.holds(x as int, y as int),
    {
        self.x0 < x && x as i128 <= self.x0 as i128 + self.size as i128 && self.y0 <= y && (y
            as i128) < self.y0 as i128 + self.size as i128
    }

    pub fn quadrant(&self, x: i64, y: i64) -> (q: usize)
        requires
            self.wf(),
        ensures
            q == self.quadrant_of(x as int, y as int),
            q < 4,
    {
        let mx = self.x0 + self.size / 2;
        let my = self.y0 + self.size / 2;
        if x <= mx {
            if y >= my { TOP_LEFT } else { BOTTOM_LEFT }
        } else {
            if y >= my { TOP_RIGHT } else { BOTTOM_RIGHT }
        }
    }

    pub fn child(&self, q: usize) -> (r: Region)
        requires
            self.wf(),
            self.size >= 2,
            q < 4,
        ensures
            r == self.sub(q),
            r.wf(),
    {
        proof {
            lemma_sub_wf(*self, q);
        }
        let h = self.size / 2;
        Region {
            x0: if q == TOP_LEFT || q == BOTTOM_LEFT { self.x0 } else { self.x0 + h },
            y0: if q == TOP_LEFT || q == TOP_RIGHT { self.y0 + h } else { self.y0 },
            size: h,
        }
    }
}

/// Powers of two are positive.
pub proof fn lemma_pow2_positive(s: int)
    requires
        is_pow2(s),
    ensures
        s >= 1,
{
    reveal_with_fuel(is_pow2, 1);
}

/// Tests `is_pow2` by halving.
fn is_power_of_two(s: i64) -> (r: bool)
    requires
        s >= 1,
    ensures
        r == is_pow2(s as int),
    decreases s,
{
    if s == 1 {
        proof {
            reveal_with_fuel(is_pow2, 1);
        }
        true
    } else if s % 2 != 0 {
        proof {
            reveal_with_fuel(is_pow2, 1);
        }
        false
    } else {
        let r = is_power_of_two(s / 2);
        proof {
            reveal_with_fuel(is_pow2, 1);
        }
        r
    }
}

/// A quadrant of a well-formed region of side at least 2 is well formed.
pub proof fn lemma_sub_wf(r: Region, q: usize)
    requires
        r.wf(),
        r.size >= 2,
        q < 4,
    ensures
        r.sub(q).wf(),
        r.sub(q).size * 2 == r.size,
        r.sub(q).size >= 1,
{
    reveal_with_fuel(is_pow2, 1);
    assert(is_pow2(r.size / 2));
    if r.size / 2 > 1 {
        reveal_with_fuel(is_pow2, 1);
    }
}

/// A point of a region lies in the quadrant that `quadrant_of` names.
pub proof fn lemma_quadrant_holds(r: Region, x: int, y: int)
    requires
        r.wf(),
        r.size >= 2,
        r.holds(x, y),
    ensures
        r.sub(r.quadrant_of(x, y)).holds(x, y),
{
    lemma_sub_wf(r, r.quadrant_of(x, y));
}

/// How often a side of `s` can be halved before it reaches 1.
pub open spec fn level(s: int) -> nat
    decreases s,
{
    if s <= 1 {
        0
    } else {
        1 + level(s / 2)
    }
}

pub open spec fn two_to(k: nat) -> int
    decreases k,
{
    if k == 0 {
        1
    } else {
        2 * two_to((k - 1) as nat)
    }
}

proof fn lemma_level_le(s: int, k: nat)
    requires
        s <= two_to(k),
    ensures
        level(s) <= k,
    decreases s,
{
    if s > 1 {
        if k == 0 {
            assert(two_to(0) == 1);
        } else {
            assert(two_to(k) == 2 * two_to((k - 1) as nat));
            lemma_level_le(s / 2, (k - 1) as nat);
        }
    }
}

/// No region is more than 41 levels deep.
pub proof fn lemma_region_level(r: Region)
    requires
        r.wf(),
    ensures
        level(r.size as int) <= 41,
{
    reveal_with_fuel(two_to, 42);
    assert(two_to(41) == 2199023255552);
    lemma_level_le(r.size as int, 41);
}

/// The unit square just right of the origin is a valid region.
pub proof fn lemma_unit_wf()
    ensures
        (Region { x0: -1i64, y0: 0i64, size: 1i64 }).wf(),
{
    reveal_with_fuel(is_pow2, 1);
}

/// A point of quadrant `q` lies in the region, and `quadrant_of` names `q`.
pub proof fn lemma_sub_quadrant(r: Region, q: usize, x: int, y: int)
    requires
        r.wf(),
        r.size >= 2,
        q < 4,
        r.sub(q).holds(x, y),
    ensures
        r.holds(x, y),
        r.quadrant_of(x, y) == q,
{
    lemma_sub_wf(r, q);
}

/// A region of side 1 holds a single point.
pub proof fn lemma_unit_region(r: Region, x1: int, y1: int, x2: int, y2: int)
    requires
        r.size == 1,
        r.holds(x1, y1),
        r.holds(x2, y2),
    ensures
        x1 == x2,
        y1 == y2,
{
}

} // verus!
