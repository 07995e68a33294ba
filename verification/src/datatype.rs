//! Plain geometric containers: a 2D pair used for coordinates and
//! velocities, and a fixed-size row-major grid.

use vstd::prelude::*;
use vstd::std_specs::convert::FromSpec;

verus! {

/// A 2D pair, used both as a grid coordinate and as a velocity.
#[derive(Clone, Copy, Debug, PartialEq, Eq, Hash)]
pub struct Vector2<T> {
    pub x: T,
    pub y: T,
}

impl<T: Copy> Vector2<T> {
    /// The same pair under another numeric representation.
    pub fn convert<T2>(&self) -> (r: Vector2<T2>) where T2: From<T>,
        ensures
            T2::obeys_from_spec() ==> r.x == T2::from_spec(self.x),
            T2::obeys_from_spec() ==> r.y == T2::from_spec(self.y),
    {
        Vector2 { x: T2::from(self.x), y: T2::from(self.y) }
    }
}

impl Vector2<i64> {
    /// Scale both components in place and hand the pair back for
    /// chaining; both products must fit the component type.
    pub fn scale(&mut self, s: i64) -> (r: &mut Vector2<i64>)
        requires
            i64::MIN <= old(self).x * s <= i64::MAX,
            i64::MIN <= old(self).y * s <= i64::MAX,
        ensures
            r.x == old(self).x * s,
            r.y == old(self).y * s,
            *final(self) == *final(r),
    {
        self.x = self.x * s;
        self.y = self.y * s;
        self
    }
}

/// Positions `(x, y)` with `0 <= x < w` and `0 <= y < h` map to the backing
/// index `x + y * w`, which stays below `w * h`.
pub proof fn lemma_grid_index(w: int, h: int, x: int, y: int)
    requires
        0 <= x < w,
        0 <= y < h,
    ensures
        0 <= x + y * w < w * h,
{
    assert(x + y * w < w * h) by (nonlinear_arith)
        requires 0 <= x < w && 0 <= y < h,
    ;
    assert(0 <= y * w) by (nonlinear_arith)
        requires 0 <= y && 0 < w,
    ;
}

/// Products of non-negative factors grow with each factor.
pub proof fn lemma_mul_le(a: int, b: int, c: int, d: int)
    requires
        0 <= a <= b,
        0 <= c <= d,
    ensures
        a * c <= b * d,
{
    assert(a * c <= b * d) by (nonlinear_arith)
        requires 0 <= a <= b && 0 <= c <= d,
    ;
}

/// Distinct in-bounds positions map to distinct backing indices.
pub proof fn lemma_grid_index_injective(w: int, x1: int, y1: int, x2: int, y2: int)
    requires
        0 <= x1 < w,
        0 <= x2 < w,
        0 <= y1,
        0 <= y2,
        !(x1 == x2 && y1 == y2),
    ensures
        x1 + y1 * w != x2 + y2 * w,
{
    assert(x1 + y1 * w != x2 + y2 * w) by (nonlinear_arith)
        requires 0 <= x1 < w && 0 <= x2 < w && 0 <= y1 && 0 <= y2 && !(x1 == x2 && y1 == y2),
    ;
}

/// A dense 2D container: `width` and `height` are fixed at construction and
/// the cells live in one row-major vector of exactly `width * height`
/// elements.
#[derive(Clone)]
pub struct GridMap<T> {
    width: usize,
    height: usize,
    grid: Vec<T>,
}

impl<T: Copy> GridMap<T> {
    /// The backing vector holds exactly one element per position.
    pub closed spec fn wf(&self) -> bool {
        &&& self.grid@.len() == self.width * self.height
        &&& self.width * self.height <= usize::MAX
    }

    pub closed spec fn spec_width(&self) -> usize {
        self.width
    }

    pub closed spec fn spec_height(&self) -> usize {
        self.height
    }

    /// The cell stored at `(x, y)`.
    pub closed spec fn at(&self, x: int, y: int) -> T {
        self.grid@[x + y * self.spec_width()]
    }

    /// All cells in row-major order.
    pub closed spec fn cells(&self) -> Seq<T> {
        self.grid@
    }

    /// How `at` and `cells` line up: `(x, y)` names the backing element
    /// `x + y * width`, and the backing sequence has one element per cell.
    pub proof fn lemma_cells_at(&self, x: int, y: int)
        requires
            self.wf(),
        ensures
            self.at(x, y) == self.cells()[x + y * self.spec_width()],
            self.cells().len() == self.spec_width() * self.spec_height(),
    {
    }

    /// `(x, y)` lies inside the grid.
    pub open spec fn in_range(&self, x: int, y: int) -> bool {
        &&& 0 <= x < self.spec_width()
        &&& 0 <= y < self.spec_height()
    }

    /// A `w` by `h` grid with every cell set to `default`.
    pub fn new(w: usize, h: usize, default: T) -> (r: Self)
        requires
            w * h <= usize::MAX,
        ensures
            r.wf(),
            r.spec_width() == w,
            r.spec_height() == h,
            forall|x: int, y: int| r.in_range(x, y) ==> #[trigger] r.at(x, y) == default,
            forall|i: int| 0 <= i < r.cells().len() ==> #[trigger] r.cells()[i] == default,
    {
        let total: usize = w * h;
        let mut grid: Vec<T> = Vec::new();
        while grid.len() < total
            invariant
                grid@.len() <= total,
                forall|i: int| 0 <= i < grid@.len() ==> grid@[i] == default,
            decreases total - grid@.len(),
        {
            grid.push(default);
        }
        let r = GridMap { width: w, height: h, grid };
        proof {
            assert forall|x: int, y: int| r.in_range(x, y) implies #[trigger] r.at(x, y)
                == default by {
                lemma_grid_index(w as int, h as int, x, y);
            }
        }
        r
    }

    #[verifier::when_used_as_spec(spec_width)]
    pub fn width(&self) -> (w: usize)
        ensures
            w == self.spec_width(),
    {
        self.width
    }

    #[verifier::when_used_as_spec(spec_height)]
    pub fn height(&self) -> (h: usize)
        ensures
            h == self.spec_height(),
    {
        self.height
    }

    /// Read the cell at `(x, y)`; the coordinates must be in bounds.
    pub fn get(&self, x: usize, y: usize) -> (r: &T)
        requires
            self.wf(),
            x < self.spec_width(),
            y < self.spec_height(),
        ensures
            *r == self.at(x as int, y as int),
    {
        proof {
            lemma_grid_index(self.width as int, self.height as int, x as int, y as int);
        }
        &self.grid[x + y * self.width]
    }

    /// Overwrite the cell at `(x, y)` and nothing else.
    pub fn set(&mut self, x: usize, y: usize, new_val: T)
        requires
            old(self).wf(),
            x < old(self).spec_width(),
            y < old(self).spec_height(),
        ensures
            final(self).wf(),
            final(self).spec_width() == old(self).spec_width(),
            final(self).spec_height() == old(self).spec_height(),
            final(self).at(x as int, y as int) == new_val,
            final(self).cells() == old(self).cells().update(
                x + y * old(self).spec_width(),
                new_val,
            ),
            forall|i: int, j: int|
                old(self).in_range(i, j) && !(i == x && j == y) ==> #[trigger] final(self).at(i, j)
                    == old(self).at(i, j),
    {
        proof {
            lemma_grid_index(self.width as int, self.height as int, x as int, y as int);
        }
        let idx: usize = x + y * self.width;
        self.grid[idx] = new_val;
        proof {
            assert forall|i: int, j: int|
                old(self).in_range(i, j) && !(i == x && j == y) implies #[trigger] self.at(i, j)
                == old(self).at(i, j) by {
                lemma_grid_index(self.width as int, self.height as int, i, j);
                lemma_grid_index_injective(self.width as int, i, j, x as int, y as int);
            }
        }
    }

    /// Exchange the cells at `(x1, y1)` and `(x2, y2)`.
    pub fn swap(&mut self, x1: usize, y1: usize, x2: usize, y2: usize)
        requires
            old(self).wf(),
            x1 < old(self).spec_width(),
            y1 < old(self).spec_height(),
            x2 < old(self).spec_width(),
            y2 < old(self).spec_height(),
        ensures
            final(self).wf(),
            final(self).spec_width() == old(self).spec_width(),
            final(self).spec_height() == old(self).spec_height(),
            final(self).at(x1 as int, y1 as int) == old(self).at(x2 as int, y2 as int),
            final(self).at(x2 as int, y2 as int) == old(self).at(x1 as int, y1 as int),
            forall|i: int, j: int|
                old(self).in_range(i, j) && !(i == x1 && j == y1) && !(i == x2 && j == y2)
                    ==> #[trigger] final(self).at(i, j) == old(self).at(i, j),
    {
        let a: T = *self.get(x1, y1);
        let b: T = *self.get(x2, y2);
        self.set(x1, y1, b);
        self.set(x2, y2, a);
    }

    /// Write `new_val` into the 3 by 3 block centered at `(x, y)`, clamped
    /// (not wrapped) to the grid edges; every other cell is untouched.
    pub fn set_neighbor(&mut self, x: i32, y: i32, new_val: T)
        requires
            old(self).wf(),
            old(self).spec_width() <= i32::MAX,
            old(self).spec_height() <= i32::MAX,
        ensures
            final(self).wf(),
            final(self).spec_width() == old(self).spec_width(),
            final(self).spec_height() == old(self).spec_height(),
            forall|i: int, j: int|
                old(self).in_range(i, j) && x - 1 <= i <= x + 1 && y - 1 <= j <= y + 1
                    ==> #[trigger] final(self).at(i, j) == new_val,
            forall|i: int, j: int|
                old(self).in_range(i, j) && !(x - 1 <= i <= x + 1 && y - 1 <= j <= y + 1)
                    ==> #[trigger] final(self).at(i, j) == old(self).at(i, j),
    {
        let xi: i64 = x as i64;
        let yi: i64 = y as i64;
        let w: i64 = self.width() as i64;
        let h: i64 = self.height() as i64;
        let lo_x: i64 = if xi - 1 > 0 { xi - 1 } else { 0 };
        let hi_x: i64 = if xi + 1 < w - 1 { xi + 1 } else { w - 1 };
        let lo_y: i64 = if yi - 1 > 0 { yi - 1 } else { 0 };
        let hi_y: i64 = if yi + 1 < h - 1 { yi + 1 } else { h - 1 };
        let mut sx: i64 = lo_x;
        while sx <= hi_x
            invariant
                self.wf(),
                self.spec_width() == old(self).spec_width(),
                self.spec_height() == old(self).spec_height(),
                w == self.spec_width(),
                h == self.spec_height(),
                lo_x == if xi - 1 > 0 { xi - 1 } else { 0 },
                hi_x == if xi + 1 < w - 1 { xi + 1 } else { w - 1 },
                lo_y == if yi - 1 > 0 { yi - 1 } else { 0 },
                hi_y == if yi + 1 < h - 1 { yi + 1 } else { h - 1 },
                xi == x,
                yi == y,
                lo_x <= sx,
                forall|i: int, j: int|
                    old(self).in_range(i, j) && x - 1 <= i <= x + 1 && y - 1 <= j <= y + 1 && i < sx
                        ==> #[trigger] self.at(i, j) == new_val,
                forall|i: int, j: int|
                    old(self).in_range(i, j) && !(x - 1 <= i <= x + 1 && y - 1 <= j <= y + 1 && i
                        < sx) ==> #[trigger] self.at(i, j) == old(self).at(i, j),
            decreases hi_x + 1 - sx,
        {
            let mut sy: i64 = lo_y;
            while sy <= hi_y
                invariant
                    self.wf(),
                    self.spec_width() == old(self).spec_width(),
                    self.spec_height() == old(self).spec_height(),
                    w == self.spec_width(),
                    h == self.spec_height(),
                    lo_x == if xi - 1 > 0 { xi - 1 } else { 0 },
                    hi_x == if xi + 1 < w - 1 { xi + 1 } else { w - 1 },
                    lo_y == if yi - 1 > 0 { yi - 1 } else { 0 },
                    hi_y == if yi + 1 < h - 1 { yi + 1 } else { h - 1 },
                    xi == x,
                    yi == y,
                    lo_x <= sx <= hi_x,
                    lo_y <= sy,
                    forall|i: int, j: int|
                        old(self).in_range(i, j) && x - 1 <= i <= x + 1 && y - 1 <= j <= y + 1 && (
                        i < sx || (i == sx && j < sy)) ==> #[trigger] self.at(i, j) == new_val,
                    forall|i: int, j: int|
                        old(self).in_range(i, j) && !(x - 1 <= i <= x + 1 && y - 1 <= j <= y + 1
                            && (i < sx || (i == sx && j < sy))) ==> #[trigger] self.at(i, j) == old(
                        self).at(i, j),
                decreases hi_y + 1 - sy,
            {
                self.set(sx as usize, sy as usize, new_val);
                sy = sy + 1;
            }
            sx = sx + 1;
        }
    }
}

} // verus!
