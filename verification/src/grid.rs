use vstd::prelude::*;

verus! {

/// The kinds of tile a cell can hold. The generator itself only depends on
/// the Wall/Floor distinction (blocked versus walkable); `Exit` is a
/// decoration kind stamped by the prefab overlay.
#[derive(Clone, Copy, PartialEq, Eq, Structural, Debug)]
pub enum TileType {
    Wall,
    Floor,
    Exit,
}

/// An integer grid coordinate, used for the player start, the goal, and
/// the monster spawn points.
#[derive(Clone, Copy, PartialEq, Eq, Structural, Debug)]
pub struct Point {
    pub x: i32,
    pub y: i32,
}

/// Squared Euclidean distance between two points, over the mathematical
/// integers. Spawn placement compares it against the squared threshold.
pub open spec fn dist2(a: Point, b: Point) -> int {
    (a.x - b.x) * (a.x - b.x) + (a.y - b.y) * (a.y - b.y)
}

impl Point {
    pub fn new(x: i32, y: i32) -> (p: Point)
        ensures
            p.x == x,
            p.y == y,
    {
        Point { x, y }
    }

    pub fn zero() -> (p: Point)
        ensures
            p.x == 0,
            p.y == 0,
    {
        Point { x: 0, y: 0 }
    }
}

/// Upper bound on each grid dimension; keeps every index computation and
/// every squared distance comfortably inside the machine integer ranges.
pub const MAX_DIM: usize = 0x8000;

/// A fixed-size tile buffer addressed by `index = y * width + x`.
pub struct Grid {
    pub width: usize,
    pub height: usize,
    pub tiles: Vec<TileType>,
}

impl Grid {
    /// Well-formedness: positive bounded dimensions and a fully allocated
    /// tile buffer.
    pub open spec fn wf(self) -> bool {
        &&& 1 <= self.width <= MAX_DIM
        &&& 1 <= self.height <= MAX_DIM
        &&& self.tiles@.len() == self.width * self.height
    }

    pub open spec fn spec_in_bounds(self, x: int, y: int) -> bool {
        0 <= x < self.width && 0 <= y < self.height
    }

    pub open spec fn spec_idx(self, x: int, y: int) -> int {
        y * self.width + x
    }

    /// The tile stored at a valid index.
    pub open spec fn tile_at(self, i: int) -> TileType {
        self.tiles@[i]
    }

    /// The tile addressed by an in-bounds point.
    pub open spec fn tile_at_point(self, p: Point) -> TileType {
        self.tile_at(self.spec_idx(p.x as int, p.y as int))
    }

    /// The whole buffer is small: at most `MAX_DIM * MAX_DIM` cells.
    pub proof fn lemma_len_bound(self)
        requires
            self.wf(),
        ensures
            self.tiles@.len() <= 0x4000_0000,
    {
        assert(self.width * self.height <= 0x4000_0000) by (nonlinear_arith)
            requires
                1 <= self.width <= MAX_DIM,
                1 <= self.height <= MAX_DIM,
        ;
    }

    /// A valid coordinate pair maps to an index inside the buffer.
    pub proof fn lemma_idx_in_range(self, x: int, y: int)
        requires
            self.wf(),
            self.spec_in_bounds(x, y),
        ensures
            0 <= self.spec_idx(x, y) < self.tiles@.len(),
    {
        assert(y * self.width + x < self.width * self.height) by (nonlinear_arith)
            requires
                0 <= x < self.width,
                0 <= y < self.height,
        ;
        assert(0 <= y * self.width) by (nonlinear_arith)
            requires
                0 <= y,
                0 <= self.width,
        ;
    }

    /// Index conversion is injective on valid coordinates.
    pub proof fn lemma_idx_injective(self, x1: int, y1: int, x2: int, y2: int)
        requires
            self.wf(),
            self.spec_in_bounds(x1, y1),
            self.spec_in_bounds(x2, y2),
            self.spec_idx(x1, y1) == self.spec_idx(x2, y2),
        ensures
            x1 == x2,
            y1 == y2,
    {
        assert(x1 == x2 && y1 == y2) by (nonlinear_arith)
            requires
                0 <= x1 < self.width,
                0 <= y1 < self.height,
                0 <= x2 < self.width,
                0 <= y2 < self.height,
                y1 * self.width + x1 == y2 * self.width + x2,
        ;
    }

    /// A valid index decomposes as row and column by division and modulus.
    pub proof fn lemma_idx_decompose(self, i: int)
        requires
            self.wf(),
            0 <= i < self.tiles@.len(),
        ensures
            self.spec_in_bounds(i % (self.width as int), i / (self.width as int)),
            self.spec_idx(i % (self.width as int), i / (self.width as int)) == i,
    {
        let w = self.width as int;
        vstd::arithmetic::div_mod::lemma_fundamental_div_mod(i, w);
        vstd::arithmetic::div_mod::lemma_mod_bound(i, w);
        assert(i / w < self.height) by (nonlinear_arith)
            requires
                w >= 1,
                i < w * self.height,
                i == w * (i / w) + i % w,
                0 <= i % w,
        ;
        assert(0 <= i / w) by (nonlinear_arith)
            requires
                w >= 1,
                0 <= i,
                i == w * (i / w) + i % w,
                i % w < w,
        ;
        assert((i / w) * w == w * (i / w)) by (nonlinear_arith);
    }

    /// A grid of the given dimensions with every cell set to Wall.
    pub fn new(width: usize, height: usize) -> (g: Grid)
        requires
            1 <= width <= MAX_DIM,
            1 <= height <= MAX_DIM,
        ensures
            g.wf(),
            g.width == width,
            g.height == height,
            forall|i: int| 0 <= i < g.tiles@.len() ==> g.tile_at(i) == TileType::Wall,
    {
        proof {
            assert(width * height <= 0x4000_0000) by (nonlinear_arith)
                requires
                    1 <= width <= MAX_DIM,
                    1 <= height <= MAX_DIM,
            ;
        }
        let n: usize = width * height;
        let mut tiles: Vec<TileType> = Vec::new();
        let mut i: usize = 0;
        while i < n
            invariant
                i <= n,
                tiles@.len() == i,
                forall|j: int| 0 <= j < i ==> tiles@[j] == TileType::Wall,
            decreases n - i,
        {
            tiles.push(TileType::Wall);
            i = i + 1;
        }
        Grid { width, height, tiles }
    }

    pub fn in_bounds(&self, p: Point) -> (r: bool)
        ensures
            r == self.spec_in_bounds(p.x as int, p.y as int),
    {
        0 <= p.x && (p.x as usize) < self.width && 0 <= p.y && (p.y as usize) < self.height
    }

    /// Coordinate-to-index conversion; out-of-range points yield `None`
    /// rather than an out-of-bounds access.
    pub fn try_idx(&self, p: Point) -> (r: Option<usize>)
        requires
            self.wf(),
        ensures
            match r {
                Some(i) => self.spec_in_bounds(p.x as int, p.y as int)
                    && i == self.spec_idx(p.x as int, p.y as int)
                    && i < self.tiles@.len(),
                None => !self.spec_in_bounds(p.x as int, p.y as int),
            },
    {
        if self.in_bounds(p) {
            proof {
                self.lemma_idx_in_range(p.x as int, p.y as int);
                self.lemma_len_bound();
            }
            Some((p.y as usize) * self.width + (p.x as usize))
        } else {
            None
        }
    }

    /// Index-to-coordinate conversion.
    pub fn point_of(&self, i: usize) -> (p: Point)
        requires
            self.wf(),
            i < self.tiles@.len(),
        ensures
            self.spec_in_bounds(p.x as int, p.y as int),
            self.spec_idx(p.x as int, p.y as int) == i,
    {
        proof {
            self.lemma_idx_decompose(i as int);
        }
        let x: usize = i % self.width;
        let y: usize = i / self.width;
        Point { x: x as i32, y: y as i32 }
    }

    /// Bounds-checked cell read.
    pub fn get(&self, p: Point) -> (r: Option<TileType>)
        requires
            self.wf(),
        ensures
            match r {
                Some(t) => self.spec_in_bounds(p.x as int, p.y as int) && t == self.tile_at_point(p),
                None => !self.spec_in_bounds(p.x as int, p.y as int),
            },
    {
        match self.try_idx(p) {
            Some(i) => Some(self.tiles[i]),
            None => None,
        }
    }

    /// Bounds-checked cell write: a no-op on an out-of-range point.
    pub fn set(&mut self, p: Point, t: TileType)
        requires
            old(self).wf(),
        ensures
            final(self).wf(),
            final(self).width == old(self).width,
            final(self).height == old(self).height,
            old(self).spec_in_bounds(p.x as int, p.y as int) ==> final(self).tiles@
                == old(self).tiles@.update(old(self).spec_idx(p.x as int, p.y as int), t),
            !old(self).spec_in_bounds(p.x as int, p.y as int) ==> final(self).tiles@
                == old(self).tiles@,
    {
        let idx = self.try_idx(p);
        match idx {
            Some(i) => {
                self.tiles.set(i, t);
            },
            None => {},
        }
    }

    /// After a bulk fill with a tile kind, reading any in-bounds point
    /// returns exactly that kind.
    pub proof fn lemma_fill_then_read(self, t: TileType, p: Point)
        requires
            self.wf(),
            forall|i: int| 0 <= i < self.tiles@.len() ==> self.tile_at(i) == t,
            self.spec_in_bounds(p.x as int, p.y as int),
        ensures
            self.tile_at_point(p) == t,
    {
        self.lemma_idx_in_range(p.x as int, p.y as int);
    }

    /// Bulk fill: set every cell to the given kind. Reading any cell
    /// afterwards returns exactly that kind.
    pub fn fill(&mut self, t: TileType)
        requires
            old(self).wf(),
        ensures
            final(self).wf(),
            final(self).width == old(self).width,
            final(self).height == old(self).height,
            final(self).tiles@.len() == old(self).tiles@.len(),
            forall|i: int| 0 <= i < final(self).tiles@.len() ==> final(self).tile_at(i) == t,
    {
        let n: usize = self.tiles.len();
        let mut i: usize = 0;
        while i < n
            invariant
                i <= n,
                self.tiles@.len() == n,
                self.width == old(self).width,
                self.height == old(self).height,
                self.wf(),
                forall|j: int| 0 <= j < i ==> self.tiles@[j] == t,
            decreases n - i,
        {
            self.tiles.set(i, t);
            i = i + 1;
        }
    }
}

} // verus!
