use vstd::prelude::*;

use crate::grid::Grid;
use crate::grid::Point;

verus! {

broadcast use vstd::seq_lib::lemma_seq_contains_after_push;

/// An axis-aligned rectangle of grid cells, given by two corner points
/// with both intervals closed: the region contains every point `(x, y)`
/// with `x1 <= x <= x2` and `y1 <= y <= y2`.
#[derive(Clone, Copy, PartialEq, Eq, Structural, Debug)]
pub struct Region {
    pub x1: i32,
    pub y1: i32,
    pub x2: i32,
    pub y2: i32,
}

/// Closed-interval rectangle intersection: the two regions share at least
/// one point exactly when this holds.
pub open spec fn spec_overlap(a: Region, b: Region) -> bool {
    a.x1 <= b.x2 && b.x1 <= a.x2 && a.y1 <= b.y2 && b.y1 <= a.y2
}

impl Region {
    /// Corner ordering, plus coordinate bounds that keep midpoint and
    /// span arithmetic inside `i32`.
    pub open spec fn wf(self) -> bool {
        &&& 0 <= self.x1 <= self.x2 < 0x10000
        &&& 0 <= self.y1 <= self.y2 < 0x10000
    }

    pub open spec fn spec_contains(self, x: int, y: int) -> bool {
        self.x1 <= x <= self.x2 && self.y1 <= y <= self.y2
    }

    /// The region lies fully within the bounds of the grid.
    pub open spec fn spec_in_grid(self, g: Grid) -> bool {
        0 <= self.x1 && self.x2 < g.width && 0 <= self.y1 && self.y2 < g.height
    }

    pub open spec fn spec_center(self) -> Point {
        Point { x: ((self.x1 + self.x2) / 2) as i32, y: ((self.y1 + self.y2) / 2) as i32 }
    }

    /// Construction from an origin and a width/height span.
    pub fn with_size(x: i32, y: i32, w: i32, h: i32) -> (r: Region)
        requires
            0 <= x,
            0 <= y,
            1 <= w,
            1 <= h,
            x + w <= 0x10000,
            y + h <= 0x10000,
        ensures
            r.wf(),
            r.x1 == x,
            r.y1 == y,
            r.x2 == x + w - 1,
            r.y2 == y + h - 1,
    {
        Region { x1: x, y1: y, x2: x + w - 1, y2: y + h - 1 }
    }

    /// Closed-interval overlap test.
    pub fn intersect(&self, other: &Region) -> (r: bool)
        ensures
            r == spec_overlap(*self, *other),
    {
        self.x1 <= other.x2 && other.x1 <= self.x2 && self.y1 <= other.y2 && other.y1 <= self.y2
    }

    /// The integer midpoint of the region. A well-formed region always
    /// contains its own center.
    pub fn center(&self) -> (p: Point)
        requires
            self.wf(),
        ensures
            p == self.spec_center(),
            self.spec_contains(p.x as int, p.y as int),
    {
        Point { x: (self.x1 + self.x2) / 2, y: (self.y1 + self.y2) / 2 }
    }

    /// Enumeration of every contained point, row by row.
    pub fn points(&self) -> (r: Vec<Point>)
        requires
            self.wf(),
        ensures
            forall|k: int| 0 <= k < r@.len()
                ==> self.spec_contains(#[trigger] r@[k].x as int, r@[k].y as int),
            forall|x: int, y: int| self.spec_contains(x, y)
                ==> r@.contains(Point { x: x as i32, y: y as i32 }),
    {
        let mut r: Vec<Point> = Vec::new();
        let mut y: i32 = self.y1;
        while y <= self.y2
            invariant
                self.wf(),
                self.y1 <= y <= self.y2 + 1,
                forall|k: int| 0 <= k < r@.len()
                    ==> self.spec_contains(#[trigger] r@[k].x as int, r@[k].y as int),
                forall|xx: int, yy: int| self.spec_contains(xx, yy) && yy < y
                    ==> r@.contains(Point { x: xx as i32, y: yy as i32 }),
            decreases self.y2 + 1 - y,
        {
            let mut x: i32 = self.x1;
            while x <= self.x2
                invariant
                    self.wf(),
                    self.y1 <= y <= self.y2,
                    self.x1 <= x <= self.x2 + 1,
                    forall|k: int| 0 <= k < r@.len()
                        ==> self.spec_contains(#[trigger] r@[k].x as int, r@[k].y as int),
                    forall|xx: int, yy: int| self.spec_contains(xx, yy) && yy < y
                        ==> r@.contains(Point { x: xx as i32, y: yy as i32 }),
                    forall|xx: int| self.x1 <= xx < x
                        ==> #[trigger] r@.contains(Point { x: xx as i32, y: y }),
                decreases self.x2 + 1 - x,
            {
                let ghost before = r@;
                r.push(Point { x, y });
                proof {
                    assert(r@ == before.push(Point { x: x, y: y }));
                }
                x = x + 1;
            }
            y = y + 1;
        }
        r
    }
}

} // verus!
