//! The simulation core: the cell model, the world with its coarse room
//! activity map, particle injection and the per-tick update.
//!
//! Velocities are stored as integers in hundredths of a cell per tick, so
//! the gravity step of 0.15 cells per tick squared is `15`, the injection
//! fall speed of 2.0 is `200`, and so on. A landing damps the vertical
//! speed to a tenth by integer division, and the vertical speed saturates
//! at `SPEED_LIMIT`, mirroring the precision ceiling that a floating
//! representation would hit.

use vstd::prelude::*;
use crate::datatype::{GridMap, Vector2, lemma_grid_index, lemma_grid_index_injective, lemma_mul_le};
use crate::rng::{rand_below, shuffle};
use vstd::arithmetic::div_mod::{
    lemma_div_multiples_vanish_fancy,
    lemma_fundamental_div_mod,
    lemma_multiply_divide_lt,
};

verus! {

/// Side of the fixed room grid: activity is tracked on a 24 by 24 map,
/// whatever the world size.
pub const ROOM_GRID: usize = 24;

/// Replenishment value a room's activity counter is raised to by a write.
pub const HOT_LEVEL: usize = 12;

/// One cell of vertical movement, in stored speed units.
pub const SPEED_SCALE: i64 = 100;

/// Gravity: 0.15 cells per tick squared, in stored speed units.
pub const GRAVITY_STEP: i64 = 15;

/// Vertical speed given to a freshly injected particle: 2.0 cells per tick.
pub const INITIAL_FALL_SPEED: i64 = 200;

/// Vertical speed after a successful sideways slide: 1.0 cells per tick.
pub const SLIDE_SPEED: i64 = 100;

/// Saturation bound for the vertical speed.
pub const SPEED_LIMIT: i64 = 1000000000;

/// Divisor for the inelastic-landing damping (a tenth of the speed stays).
pub const LANDING_DAMP_DIV: i64 = 10;

/// Payload of a moving or static particle.
#[derive(Clone, Copy, Debug, PartialEq)]
pub struct ParticleData {
    pub speed: Vector2<i64>,
    pub color: (u8, u8, u8),
}

/// One cell of the world: empty space, a movable sand particle, or an
/// immovable block.
#[derive(Clone, Copy, Debug, PartialEq)]
pub enum CellType {
    Empty,
    Sand(ParticleData),
    Block(ParticleData),
}

/// Whether a cell holds a movable particle.
pub open spec fn is_sand(c: CellType) -> bool {
    c is Sand
}

/// The color a renderer would use for a cell; empty cells have none and
/// report black.
pub open spec fn cell_color(c: CellType) -> (u8, u8, u8) {
    match c {
        CellType::Empty => (0, 0, 0),
        CellType::Sand(d) => d.color,
        CellType::Block(d) => d.color,
    }
}

/// One frame's worth of activity decay: counters fall by one and floor at
/// zero.
pub open spec fn decay_counter(v: usize) -> usize {
    if v > 0 {
        (v - 1) as usize
    } else {
        0
    }
}

/// A counter after `n` frames of decay.
pub open spec fn decay_iter(v: usize, n: nat) -> usize
    decreases n,
{
    if n == 0 {
        v
    } else {
        decay_iter(decay_counter(v), (n - 1) as nat)
    }
}

/// A counter that starts no higher than `n` is zero after `n` decays; in
/// particular, since every counter is at most `HOT_LEVEL`, a world whose
/// frames change nothing has every room cold after at most `HOT_LEVEL`
/// frames, and from then on each frame reports an empty changed list.
pub proof fn lemma_decay_reaches_zero(v: usize, n: nat)
    requires
        v <= n,
    ensures
        decay_iter(v, n) == 0,
    decreases n,
{
    if n > 0 {
        lemma_decay_reaches_zero(decay_counter(v), (n - 1) as nat);
    }
}

/// Number of sand cells in a row-major cell sequence.
pub open spec fn count_sand(s: Seq<CellType>) -> int
    decreases s.len(),
{
    if s.len() == 0 {
        0
    } else {
        count_sand(s.drop_last()) + if is_sand(s.last()) {
            1int
        } else {
            0int
        }
    }
}

/// Overwriting one cell changes the sand count by the difference the two
/// cells contribute.
pub proof fn lemma_count_sand_update(s: Seq<CellType>, i: int, v: CellType)
    requires
        0 <= i < s.len(),
    ensures
        count_sand(s.update(i, v)) == count_sand(s) - (if is_sand(s[i]) {
            1int
        } else {
            0int
        }) + (if is_sand(v) {
            1int
        } else {
            0int
        }),
    decreases s.len(),
{
    let t = s.update(i, v);
    if i == s.len() - 1 {
        assert(t.drop_last() =~= s.drop_last());
    } else {
        assert(t.drop_last() =~= s.drop_last().update(i, v));
        lemma_count_sand_update(s.drop_last(), i, v);
    }
}

/// Number of sand cells of color `c` in a row-major cell sequence.
pub open spec fn count_sand_colored(s: Seq<CellType>, c: (u8, u8, u8)) -> int
    decreases s.len(),
{
    if s.len() == 0 {
        0
    } else {
        count_sand_colored(s.drop_last(), c) + if is_sand(s.last()) && cell_color(s.last()) == c {
            1int
        } else {
            0int
        }
    }
}

/// Overwriting one cell changes each color's sand count by the difference
/// the two cells contribute to that color.
pub proof fn lemma_count_sand_colored_update(s: Seq<CellType>, i: int, v: CellType, c: (u8, u8, u8))
    requires
        0 <= i < s.len(),
    ensures
        count_sand_colored(s.update(i, v), c) == count_sand_colored(s, c) - (if is_sand(s[i])
            && cell_color(s[i]) == c {
            1int
        } else {
            0int
        }) + (if is_sand(v) && cell_color(v) == c {
            1int
        } else {
            0int
        }),
    decreases s.len(),
{
    let t = s.update(i, v);
    if i == s.len() - 1 {
        assert(t.drop_last() =~= s.drop_last());
    } else {
        assert(t.drop_last() =~= s.drop_last().update(i, v));
        lemma_count_sand_colored_update(s.drop_last(), i, v, c);
    }
}

/// A sequence without sand cells counts zero.
pub proof fn lemma_count_sand_none(s: Seq<CellType>)
    requires
        forall|i: int| 0 <= i < s.len() ==> !is_sand(#[trigger] s[i]),
    ensures
        count_sand(s) == 0,
    decreases s.len(),
{
    if s.len() > 0 {
        lemma_count_sand_none(s.drop_last());
    }
}

/// Whether a cell is empty space.
fn cell_is_empty(c: &CellType) -> (r: bool)
    ensures
        r == (*c is Empty),
{
    matches!(*c, CellType::Empty)
}

/// Integer square root under a known bound: the unique `s` with
/// `s * s <= m < (s + 1) * (s + 1)`.
fn isqrt_below(m: usize, bound: usize) -> (s: usize)
    requires
        m <= bound * bound,
        bound * bound <= usize::MAX,
    ensures
        s * s <= m,
        m < (s + 1) * (s + 1),
        s <= bound,
{
    let mut s: usize = 0;
    loop
        invariant
            s <= bound,
            s * s <= m,
            m <= bound * bound,
            bound * bound <= usize::MAX,
        ensures
            s <= bound,
            s * s <= m,
            m < (s + 1) * (s + 1),
        decreases bound - s,
    {
        if s >= bound {
            proof {
                assert(m < (s + 1) * (s + 1)) by (nonlinear_arith)
                    requires m <= bound * bound && s == bound,
                ;
            }
            break;
        }
        proof {
            lemma_mul_le((s + 1) as int, bound as int, (s + 1) as int, bound as int);
        }
        let next: usize = (s + 1) * (s + 1);
        if next > m {
            break;
        }
        s = s + 1;
    }
    s
}

/// The simulation world: the primary cell grid plus a fixed 24 by 24 grid
/// of decaying room activity counters. `room_size` maps a cell coordinate
/// to its room by integer division.
pub struct World {
    grid_rooms_hotness: GridMap<usize>,
    room_size: Vector2<usize>,
    grid: GridMap<CellType>,
}

impl World {
    pub closed spec fn spec_width(&self) -> usize {
        self.grid.spec_width()
    }

    pub closed spec fn spec_height(&self) -> usize {
        self.grid.spec_height()
    }

    /// The cell stored at `(x, y)`.
    pub closed spec fn cell(&self, x: int, y: int) -> CellType {
        self.grid.at(x, y)
    }

    /// `(x, y)` lies inside the world.
    pub open spec fn in_range(&self, x: int, y: int) -> bool {
        &&& 0 <= x < self.spec_width()
        &&& 0 <= y < self.spec_height()
    }

    /// The activity counter of room `(rx, ry)`.
    pub closed spec fn hotness(&self, rx: int, ry: int) -> usize {
        self.grid_rooms_hotness.at(rx, ry)
    }

    /// Cell columns covered by one room.
    pub closed spec fn room_w(&self) -> usize {
        self.room_size.x
    }

    /// Cell rows covered by one room.
    pub closed spec fn room_h(&self) -> usize {
        self.room_size.y
    }

    /// The room column owning cell column `x`.
    pub open spec fn room_of_x(&self, x: int) -> int {
        x / (self.room_w() as int)
    }

    /// The room row owning cell row `y`.
    pub open spec fn room_of_y(&self, y: int) -> int {
        y / (self.room_h() as int)
    }

    /// Room `(rx, ry)` lies in the 3 by 3 room neighborhood of the room
    /// owning cell `(x, y)` (clamping is the caller's range on `rx, ry`).
    pub open spec fn room_near(&self, x: int, y: int, rx: int, ry: int) -> bool {
        &&& self.room_of_x(x) - 1 <= rx <= self.room_of_x(x) + 1
        &&& self.room_of_y(y) - 1 <= ry <= self.room_of_y(y) + 1
    }

    /// The closed disk of radius `radius` around `(x, y)` lies strictly
    /// inside the grid and holds only empty cells, and the radius is not
    /// zero: every candidate an injection draws then lands on an empty
    /// in-bounds cell, so the very first one commits.
    pub open spec fn disk_clear(&self, x: usize, y: usize, radius: usize) -> bool {
        &&& 1 <= radius
        &&& radius <= x
        &&& x + radius < self.spec_width()
        &&& radius <= y
        &&& y + radius < self.spec_height()
        &&& forall|i: int, j: int|
            self.in_range(i, j) && (i - x) * (i - x) + (j - y) * (j - y) <= radius * radius
                ==> #[trigger] self.cell(i, j) is Empty
    }

    /// Total number of sand cells in the world.
    pub closed spec fn sand_total(&self) -> int {
        count_sand(self.grid.cells())
    }

    /// Total number of sand cells of color `c` in the world.
    pub closed spec fn sand_total_colored(&self, c: (u8, u8, u8)) -> int {
        count_sand_colored(self.grid.cells(), c)
    }

    /// Well-formedness: the grids are consistent, the room grid is 24 by
    /// 24 with counters at most `HOT_LEVEL`, the dimensions are non-zero
    /// and small enough for coordinate arithmetic, and `room_size` is the
    /// dimension divided by 24, rounded up.
    pub closed spec fn wf(&self) -> bool {
        &&& self.grid.wf()
        &&& self.grid_rooms_hotness.wf()
        &&& self.grid_rooms_hotness.spec_width() == ROOM_GRID
        &&& self.grid_rooms_hotness.spec_height() == ROOM_GRID
        &&& self.spec_width() <= i32::MAX
        &&& self.spec_height() <= i32::MAX
        &&& self.spec_width() * self.spec_height() <= usize::MAX
        &&& (1 <= self.spec_width() ==> 1 <= self.room_w())
        &&& (self.spec_width() == 0 ==> self.room_w() == 0)
        &&& (1 <= self.spec_height() ==> 1 <= self.room_h())
        &&& (self.spec_height() == 0 ==> self.room_h() == 0)
        &&& self.spec_width() <= 24 * self.room_w()
        &&& 24 * self.room_w() < self.spec_width() + 24
        &&& self.spec_height() <= 24 * self.room_h()
        &&& 24 * self.room_h() < self.spec_height() + 24
        &&& forall|rx: int, ry: int|
            0 <= rx < ROOM_GRID && 0 <= ry < ROOM_GRID ==> #[trigger] self.hotness(rx, ry)
                <= HOT_LEVEL
    }

    /// An all-empty world of the requested size (a zero-sized world is
    /// legal and vacuously inert), with every room counter at zero and
    /// `room_size` the dimensions divided by 24, rounded up.
    pub fn new(width: usize, height: usize) -> (w: World)
        requires
            width <= i32::MAX,
            height <= i32::MAX,
            width * height <= usize::MAX,
        ensures
            w.wf(),
            w.spec_width() == width,
            w.spec_height() == height,
            w.room_w() == (width + 23) / 24,
            w.room_h() == (height + 23) / 24,
            forall|x: int, y: int| w.in_range(x, y) ==> #[trigger] w.cell(x, y) is Empty,
            forall|rx: int, ry: int|
                0 <= rx < ROOM_GRID && 0 <= ry < ROOM_GRID ==> #[trigger] w.hotness(rx, ry) == 0,
            w.sand_total() == 0,
    {
        let grid = GridMap::new(width, height, CellType::Empty);
        let hotness = GridMap::new(ROOM_GRID, ROOM_GRID, 0usize);
        let rsx: usize = width / ROOM_GRID + if width % ROOM_GRID == 0 {
            0
        } else {
            1
        };
        let rsy: usize = height / ROOM_GRID + if height % ROOM_GRID == 0 {
            0
        } else {
            1
        };
        proof {
            assert(width / ROOM_GRID == width / 24 && width % ROOM_GRID == width % 24);
            assert(height / ROOM_GRID == height / 24 && height % ROOM_GRID == height % 24);
            lemma_fundamental_div_mod(width as int, 24);
            lemma_fundamental_div_mod(height as int, 24);
            if width % 24 == 0 {
                lemma_div_multiples_vanish_fancy(width as int / 24, 23, 24);
            } else {
                lemma_div_multiples_vanish_fancy(width as int / 24 + 1, width as int % 24 - 1, 24);
            }
            if height % 24 == 0 {
                lemma_div_multiples_vanish_fancy(height as int / 24, 23, 24);
            } else {
                lemma_div_multiples_vanish_fancy(
                    height as int / 24 + 1,
                    height as int % 24 - 1,
                    24,
                );
            }
        }
        let w = World {
            grid_rooms_hotness: hotness,
            room_size: Vector2 { x: rsx, y: rsy },
            grid,
        };
        proof {
            lemma_count_sand_none(w.grid.cells());
        }
        w
    }

    #[verifier::when_used_as_spec(spec_width)]
    pub fn width(&self) -> (r: usize)
        ensures
            r == self.spec_width(),
    {
        self.grid.width()
    }

    #[verifier::when_used_as_spec(spec_height)]
    pub fn height(&self) -> (r: usize)
        ensures
            r == self.spec_height(),
    {
        self.grid.height()
    }

    /// Read the cell at `(x, y)`; the coordinates must be in bounds.
    pub fn get(&self, x: usize, y: usize) -> (r: &CellType)
        requires
            self.wf(),
            x < self.spec_width(),
            y < self.spec_height(),
        ensures
            *r == self.cell(x as int, y as int),
    {
        self.grid.get(x, y)
    }

    /// Raise the activity counter of the room owning `(x, y)`, and of the
    /// eight rooms around it, to `HOT_LEVEL`.
    fn hot(&mut self, x: usize, y: usize)
        requires
            old(self).wf(),
            x < old(self).spec_width(),
            y < old(self).spec_height(),
        ensures
            final(self).wf(),
            final(self).grid == old(self).grid,
            final(self).room_size == old(self).room_size,
            forall|rx: int, ry: int|
                0 <= rx < ROOM_GRID && 0 <= ry < ROOM_GRID && old(self).room_of_x(x as int) - 1
                    <= rx <= old(self).room_of_x(x as int) + 1 && old(self).room_of_y(y as int) - 1
                    <= ry <= old(self).room_of_y(y as int) + 1 ==> #[trigger] final(self).hotness(
                    rx,
                    ry,
                ) == HOT_LEVEL,
            forall|rx: int, ry: int|
                0 <= rx < ROOM_GRID && 0 <= ry < ROOM_GRID && !(old(self).room_of_x(x as int) - 1
                    <= rx <= old(self).room_of_x(x as int) + 1 && old(self).room_of_y(y as int) - 1
                    <= ry <= old(self).room_of_y(y as int) + 1) ==> #[trigger] final(self).hotness(
                    rx,
                    ry,
                ) == old(self).hotness(rx, ry),
    {
        let rx: usize = x / self.room_size.x;
        let ry: usize = y / self.room_size.y;
        proof {
            lemma_multiply_divide_lt(x as int, 24, self.room_size.x as int);
            lemma_multiply_divide_lt(y as int, 24, self.room_size.y as int);
        }
        self.grid_rooms_hotness.set_neighbor(rx as i32, ry as i32, HOT_LEVEL);
        proof {
            assert forall|qx: int, qy: int|
                0 <= qx < ROOM_GRID && 0 <= qy < ROOM_GRID implies #[trigger] self.hotness(qx, qy)
                <= HOT_LEVEL by {
                assert(old(self).hotness(qx, qy) <= HOT_LEVEL);
            }
        }
    }

    /// Overwrite the cell at `(x, y)` and mark its room neighborhood hot.
    pub fn set(&mut self, x: usize, y: usize, cell_type: CellType)
        requires
            old(self).wf(),
            x < old(self).spec_width(),
            y < old(self).spec_height(),
        ensures
            final(self).wf(),
            final(self).spec_width() == old(self).spec_width(),
            final(self).spec_height() == old(self).spec_height(),
            final(self).room_w() == old(self).room_w(),
            final(self).room_h() == old(self).room_h(),
            final(self).cell(x as int, y as int) == cell_type,
            forall|i: int, j: int|
                old(self).in_range(i, j) && !(i == x && j == y) ==> #[trigger] final(self).cell(
                    i,
                    j,
                ) == old(self).cell(i, j),
            final(self).sand_total() == old(self).sand_total() - (if is_sand(
                old(self).cell(x as int, y as int),
            ) {
                1int
            } else {
                0int
            }) + (if is_sand(cell_type) {
                1int
            } else {
                0int
            }),
            forall|rx: int, ry: int|
                0 <= rx < ROOM_GRID && 0 <= ry < ROOM_GRID ==> #[trigger] final(self).hotness(
                    rx,
                    ry,
                ) == HOT_LEVEL || final(self).hotness(rx, ry) == old(self).hotness(rx, ry),
            forall|rx: int, ry: int|
                0 <= rx < ROOM_GRID && 0 <= ry < ROOM_GRID && old(self).room_of_x(x as int) - 1
                    <= rx <= old(self).room_of_x(x as int) + 1 && old(self).room_of_y(y as int) - 1
                    <= ry <= old(self).room_of_y(y as int) + 1 ==> #[trigger] final(self).hotness(
                    rx,
                    ry,
                ) == HOT_LEVEL,
            forall|rx: int, ry: int|
                0 <= rx < ROOM_GRID && 0 <= ry < ROOM_GRID && !(old(self).room_of_x(x as int) - 1
                    <= rx <= old(self).room_of_x(x as int) + 1 && old(self).room_of_y(y as int) - 1
                    <= ry <= old(self).room_of_y(y as int) + 1) ==> #[trigger] final(self).hotness(
                    rx,
                    ry,
                ) == old(self).hotness(rx, ry),
    {
        proof {
            self.grid.lemma_cells_at(x as int, y as int);
            lemma_grid_index(
                self.spec_width() as int,
                self.spec_height() as int,
                x as int,
                y as int,
            );
            lemma_count_sand_update(
                self.grid.cells(),
                x + y * self.spec_width(),
                cell_type,
            );
        }
        self.grid.set(x, y, cell_type);
        proof {
            assert forall|qx: int, qy: int|
                0 <= qx < ROOM_GRID && 0 <= qy < ROOM_GRID implies #[trigger] self.hotness(qx, qy)
                <= HOT_LEVEL by {
                assert(old(self).hotness(qx, qy) <= HOT_LEVEL);
                assert(self.grid_rooms_hotness == old(self).grid_rooms_hotness);
            }
        }
        self.hot(x, y);
    }

    /// Spray up to `radius * 4` sand particles around `(x, y)`. Each
    /// candidate is drawn at an integer distance of at most `radius` from
    /// the center (a radius drawn uniformly, then a lattice point near the
    /// circle of that radius; drawing the radius uniformly, rather than
    /// area-uniformly, deliberately biases density toward the center of
    /// the disk); a candidate outside the grid or on a
    /// non-empty cell is silently dropped. Committed particles start with
    /// velocity `(0, INITIAL_FALL_SPEED)` and the given color.
    pub fn add_sand(&mut self, x: usize, y: usize, color: (u8, u8, u8), radius: usize)
        requires
            old(self).wf(),
            radius * 4 <= usize::MAX,
            radius * radius <= usize::MAX,
        ensures
            final(self).wf(),
            final(self).spec_width() == old(self).spec_width(),
            final(self).spec_height() == old(self).spec_height(),
            final(self).room_w() == old(self).room_w(),
            final(self).room_h() == old(self).room_h(),
            forall|i: int, j: int|
                #![trigger final(self).cell(i, j)]
                old(self).in_range(i, j) ==> final(self).cell(i, j) == old(self).cell(i, j) || (
                old(self).cell(i, j) is Empty && final(self).cell(i, j) == CellType::Sand(
                    ParticleData { speed: Vector2 { x: 0i64, y: INITIAL_FALL_SPEED }, color },
                ) && (i - x) * (i - x) + (j - y) * (j - y) <= radius * radius),
            old(self).sand_total() <= final(self).sand_total(),
            final(self).sand_total() <= old(self).sand_total() + radius * 4,
            old(self).disk_clear(x, y, radius) ==> final(self).sand_total() > old(
                self,
            ).sand_total(),
            forall|rx: int, ry: int|
                0 <= rx < ROOM_GRID && 0 <= ry < ROOM_GRID ==> #[trigger] final(self).hotness(
                    rx,
                    ry,
                ) == old(self).hotness(rx, ry) || final(self).hotness(rx, ry) == HOT_LEVEL,
            forall|i: int, j: int|
                #![trigger final(self).cell(i, j)]
                old(self).in_range(i, j) && final(self).cell(i, j) != old(self).cell(i, j)
                    ==> (forall|rx: int, ry: int|
                    0 <= rx < ROOM_GRID && 0 <= ry < ROOM_GRID && old(self).room_near(i, j, rx, ry)
                        ==> #[trigger] final(self).hotness(rx, ry) == HOT_LEVEL),
    {
        let amount: usize = radius * 4;
        let mut n: usize = 0;
        while n < amount
            invariant
                self.wf(),
                self.spec_width() == old(self).spec_width(),
                self.spec_height() == old(self).spec_height(),
                self.room_w() == old(self).room_w(),
                self.room_h() == old(self).room_h(),
                n <= amount,
                amount == radius * 4,
                radius * radius <= usize::MAX,
                forall|i: int, j: int|
                    #![trigger self.cell(i, j)]
                    old(self).in_range(i, j) ==> self.cell(i, j) == old(self).cell(i, j) || (
                    old(self).cell(i, j) is Empty && self.cell(i, j) == CellType::Sand(
                        ParticleData { speed: Vector2 { x: 0i64, y: INITIAL_FALL_SPEED }, color },
                    ) && (i - x) * (i - x) + (j - y) * (j - y) <= radius * radius),
                old(self).sand_total() <= self.sand_total(),
                self.sand_total() <= old(self).sand_total() + n,
                n == 0 ==> self.grid == old(self).grid,
                (old(self).disk_clear(x, y, radius) && n >= 1) ==> self.sand_total() > old(
                    self,
                ).sand_total(),
                forall|rx: int, ry: int|
                    0 <= rx < ROOM_GRID && 0 <= ry < ROOM_GRID ==> #[trigger] self.hotness(rx, ry)
                        == old(self).hotness(rx, ry) || self.hotness(rx, ry) == HOT_LEVEL,
                forall|i: int, j: int|
                    #![trigger self.cell(i, j)]
                    old(self).in_range(i, j) && self.cell(i, j) != old(self).cell(i, j)
                        ==> (forall|rx: int, ry: int|
                        0 <= rx < ROOM_GRID && 0 <= ry < ROOM_GRID && old(self).room_near(
                            i,
                            j,
                            rx,
                            ry,
                        ) ==> #[trigger] self.hotness(rx, ry) == HOT_LEVEL),
            decreases amount - n,
        {
            let ghost mid = *self;
            let r: usize = rand_below(radius + 1);
            let dx_draw: usize = rand_below(2 * r + 1);
            let go_right: bool = dx_draw >= r;
            let adx: usize = if dx_draw >= r {
                dx_draw - r
            } else {
                r - dx_draw
            };
            proof {
                lemma_mul_le(adx as int, r as int, adx as int, r as int);
                lemma_mul_le(r as int, radius as int, r as int, radius as int);
            }
            let m: usize = r * r - adx * adx;
            let ady: usize = isqrt_below(m, r);
            let go_down: bool = rand_below(2) == 0;
            let cand_x: Option<usize> = if go_right {
                if adx <= usize::MAX - x {
                    Some(x + adx)
                } else {
                    None
                }
            } else {
                if adx <= x {
                    Some(x - adx)
                } else {
                    None
                }
            };
            let cand_y: Option<usize> = if go_down {
                if ady <= usize::MAX - y {
                    Some(y + ady)
                } else {
                    None
                }
            } else {
                if ady <= y {
                    Some(y - ady)
                } else {
                    None
                }
            };
            match (cand_x, cand_y) {
                (Some(cx), Some(cy)) => {
                    proof {
                        let di = cx as int - x as int;
                        let dj = cy as int - y as int;
                        assert(di == adx || di == -(adx as int));
                        assert(dj == ady || dj == -(ady as int));
                        assert(di * di == adx * adx) by (nonlinear_arith)
                            requires di == adx || di == -(adx as int),
                        ;
                        assert(dj * dj == ady * ady) by (nonlinear_arith)
                            requires dj == ady || dj == -(ady as int),
                        ;
                        if n == 0 && old(self).disk_clear(x, y, radius) {
                            assert(old(self).cell(cx as int, cy as int) is Empty);
                            assert(self.cell(cx as int, cy as int) is Empty);
                        }
                    }
                    if cx < self.width() && cy < self.height() {
                        let vacant: bool = cell_is_empty(self.get(cx, cy));
                        if vacant {
                            self.set(
                                cx,
                                cy,
                                CellType::Sand(
                                    ParticleData {
                                        speed: Vector2 { x: 0i64, y: INITIAL_FALL_SPEED },
                                        color,
                                    },
                                ),
                            );
                            proof {
                                assert forall|i: int, j: int|
                                    #![trigger self.cell(i, j)]
                                    old(self).in_range(i, j) && self.cell(i, j) != old(self).cell(
                                        i,
                                        j,
                                    ) implies (forall|qx: int, qy: int|
                                    0 <= qx < ROOM_GRID && 0 <= qy < ROOM_GRID && old(
                                        self,
                                    ).room_near(i, j, qx, qy) ==> #[trigger] self.hotness(qx, qy)
                                        == HOT_LEVEL) by {
                                    assert forall|qx: int, qy: int|
                                        0 <= qx < ROOM_GRID && 0 <= qy < ROOM_GRID && old(
                                            self,
                                        ).room_near(i, j, qx, qy) implies #[trigger] self.hotness(
                                        qx,
                                        qy,
                                    ) == HOT_LEVEL by {
                                        if i == cx && j == cy {
                                            assert(mid.room_of_x(cx as int) == old(
                                                self,
                                            ).room_of_x(cx as int));
                                            assert(mid.room_of_y(cy as int) == old(
                                                self,
                                            ).room_of_y(cy as int));
                                        } else {
                                            assert(mid.cell(i, j) != old(self).cell(i, j));
                                            assert(mid.hotness(qx, qy) == HOT_LEVEL);
                                        }
                                    }
                                }
                            }
                        }
                    }
                },
                _ => {
                    proof {
                        if n == 0 && old(self).disk_clear(x, y, radius) {
                            assert(cand_x is Some);
                            assert(cand_y is Some);
                            assert(false);
                        }
                    }
                },
            }
            n = n + 1;
        }
    }

    /// Decrement every room activity counter by one, flooring at zero.
    fn decay_rooms(&mut self)
        requires
            old(self).wf(),
        ensures
            final(self).wf(),
            final(self).grid == old(self).grid,
            final(self).room_size == old(self).room_size,
            forall|rx: int, ry: int|
                0 <= rx < ROOM_GRID && 0 <= ry < ROOM_GRID ==> #[trigger] final(self).hotness(
                    rx,
                    ry,
                ) == decay_counter(old(self).hotness(rx, ry)),
    {
        let mut rx: usize = 0;
        while rx < ROOM_GRID
            invariant
                rx <= ROOM_GRID,
                self.grid == old(self).grid,
                self.room_size == old(self).room_size,
                self.grid_rooms_hotness.wf(),
                self.grid_rooms_hotness.spec_width() == ROOM_GRID,
                self.grid_rooms_hotness.spec_height() == ROOM_GRID,
                forall|i: int, j: int|
                    0 <= i < ROOM_GRID && 0 <= j < ROOM_GRID && i < rx ==> #[trigger] self.hotness(
                        i,
                        j,
                    ) == decay_counter(old(self).hotness(i, j)),
                forall|i: int, j: int|
                    0 <= i < ROOM_GRID && 0 <= j < ROOM_GRID && i >= rx ==> #[trigger] self.hotness(
                        i,
                        j,
                    ) == old(self).hotness(i, j),
            decreases ROOM_GRID - rx,
        {
            let mut ry: usize = 0;
            while ry < ROOM_GRID
                invariant
                    rx < ROOM_GRID,
                    ry <= ROOM_GRID,
                    self.grid == old(self).grid,
                    self.room_size == old(self).room_size,
                    self.grid_rooms_hotness.wf(),
                    self.grid_rooms_hotness.spec_width() == ROOM_GRID,
                    self.grid_rooms_hotness.spec_height() == ROOM_GRID,
                    forall|i: int, j: int|
                        0 <= i < ROOM_GRID && 0 <= j < ROOM_GRID && (i < rx || (i == rx && j < ry))
                            ==> #[trigger] self.hotness(i, j) == decay_counter(
                            old(self).hotness(i, j),
                        ),
                    forall|i: int, j: int|
                        0 <= i < ROOM_GRID && 0 <= j < ROOM_GRID && !(i < rx || (i == rx && j < ry))
                            ==> #[trigger] self.hotness(i, j) == old(self).hotness(i, j),
                decreases ROOM_GRID - ry,
            {
                let ghost hpre = *self;
                let v: usize = *self.grid_rooms_hotness.get(rx, ry);
                if v > 0 {
                    self.grid_rooms_hotness.set(rx, ry, v - 1);
                }
                proof {
                    assert(hpre.hotness(rx as int, ry as int) == old(self).hotness(
                        rx as int,
                        ry as int,
                    ));
                    assert(self.hotness(rx as int, ry as int) == decay_counter(
                        old(self).hotness(rx as int, ry as int),
                    ));
                    assert forall|i: int, j: int|
                        0 <= i < ROOM_GRID && 0 <= j < ROOM_GRID && !(i == rx && j == ry)
                            implies #[trigger] self.hotness(i, j) == hpre.hotness(i, j) by {}
                    assert forall|i: int, j: int|
                        0 <= i < ROOM_GRID && 0 <= j < ROOM_GRID && !(i == rx && j == ry)
                            implies #[trigger] self.hotness(i, j) == hpre.hotness(i, j) && (
                        hpre.hotness(i, j) == old(self).hotness(i, j) || hpre.hotness(i, j)
                            == decay_counter(old(self).hotness(i, j))) by {
                        assert(hpre.hotness(i, j) == old(self).hotness(i, j) || hpre.hotness(i, j)
                            == decay_counter(old(self).hotness(i, j)));
                    }
                }
                ry = ry + 1;
            }
            rx = rx + 1;
        }
        proof {
            assert forall|qx: int, qy: int|
                0 <= qx < ROOM_GRID && 0 <= qy < ROOM_GRID implies #[trigger] self.hotness(qx, qy)
                <= HOT_LEVEL by {
                assert(old(self).hotness(qx, qy) <= HOT_LEVEL);
            }
        }
    }

    /// Everything both phases of a frame maintain, relative to the state
    /// `prev` at the start of the frame: geometry and sand count are
    /// conserved, blocks and occupied bottom-row cells never change,
    /// every changed cell is reported in `ret` with in-bounds
    /// coordinates, and a frame that started with every counter at zero
    /// reports no changes.
    spec fn frame_pass_inv(&self, prev: World, ret: Seq<Vector2<usize>>) -> bool {
        &&& prev.wf()
        &&& self.wf()
        &&& self.spec_width() == prev.spec_width()
        &&& self.spec_height() == prev.spec_height()
        &&& self.room_size == prev.room_size
        &&& self.sand_total() == prev.sand_total()
        &&& forall|c: (u8, u8, u8)|
            #[trigger] self.sand_total_colored(c) == prev.sand_total_colored(c)
        &&& forall|i: int, j: int|
            #![trigger self.cell(i, j)]
            #![trigger prev.cell(i, j)]
            prev.in_range(i, j) ==> {
                &&& (prev.cell(i, j) is Block ==> self.cell(i, j) == prev.cell(i, j))
                &&& (self.cell(i, j) is Block ==> self.cell(i, j) == prev.cell(i, j))
                &&& (j == prev.spec_height() - 1 && !(prev.cell(i, j) is Empty) ==> self.cell(i, j)
                    == prev.cell(i, j))
                &&& (self.cell(i, j) != prev.cell(i, j) ==> ret.contains(
                    Vector2 { x: i as usize, y: j as usize },
                ))
            }
        &&& forall|k: int|
            0 <= k < ret.len() ==> prev.in_range(#[trigger] ret[k].x as int, ret[k].y as int)
        &&& ret.len() % 2 == 0
        &&& forall|p: int|
            #![trigger ret[2 * p + 1]]
            0 <= 2 * p + 1 < ret.len() ==> {
                let s = ret[2 * p];
                let d = ret[2 * p + 1];
                &&& s.y < d.y
                &&& s.x as int - 4 <= d.x as int <= s.x as int + 4
                &&& (d.x != s.x ==> d.y == s.y + 1)
            }
        &&& ((forall|rx: int, ry: int|
            0 <= rx < ROOM_GRID && 0 <= ry < ROOM_GRID ==> #[trigger] prev.hotness(rx, ry) == 0)
            ==> ret.len() == 0)
    }

    /// Advance the simulation by one tick: decay every room counter, run
    /// the per-room pass over every room still active, re-raise activity
    /// around every changed cell, and return all changed coordinates (not
    /// deduplicated) as a repaint hint. Sand is conserved, blocks and
    /// occupied bottom-row cells never change, and a tick that changes
    /// nothing simply lets every counter fall by one, so a world at rest
    /// goes fully cold after at most `HOT_LEVEL` ticks and then reports
    /// no changes at all.
    #[verifier::loop_isolation(false)]
    #[verifier::rlimit(60)]
    pub fn process_frame(&mut self) -> (ret: Vec<Vector2<usize>>)
        requires
            old(self).wf(),
        ensures
            final(self).wf(),
            final(self).spec_width() == old(self).spec_width(),
            final(self).spec_height() == old(self).spec_height(),
            final(self).room_w() == old(self).room_w(),
            final(self).room_h() == old(self).room_h(),
            final(self).sand_total() == old(self).sand_total(),
            forall|c: (u8, u8, u8)|
                #[trigger] final(self).sand_total_colored(c) == old(self).sand_total_colored(c),
            forall|i: int, j: int|
                #![trigger final(self).cell(i, j)]
                #![trigger old(self).cell(i, j)]
                old(self).in_range(i, j) ==> {
                    &&& (old(self).cell(i, j) is Block ==> final(self).cell(i, j) == old(
                        self,
                    ).cell(i, j))
                    &&& (final(self).cell(i, j) is Block ==> final(self).cell(i, j) == old(
                        self,
                    ).cell(i, j))
                    &&& (j == old(self).spec_height() - 1 && !(old(self).cell(i, j) is Empty)
                        ==> final(self).cell(i, j) == old(self).cell(i, j))
                    &&& (final(self).cell(i, j) != old(self).cell(i, j) ==> ret@.contains(
                        Vector2 { x: i as usize, y: j as usize },
                    ))
                },
            forall|k: int|
                0 <= k < ret@.len() ==> old(self).in_range(
                    #[trigger] ret@[k].x as int,
                    ret@[k].y as int,
                ),
            ret@.len() % 2 == 0,
            forall|p: int|
                #![trigger ret@[2 * p + 1]]
                0 <= 2 * p + 1 < ret@.len() ==> {
                    let s = ret@[2 * p];
                    let d = ret@[2 * p + 1];
                    &&& s.y < d.y
                    &&& s.x as int - 4 <= d.x as int <= s.x as int + 4
                    &&& (d.x != s.x ==> d.y == s.y + 1)
                },
            forall|rx: int, ry: int|
                0 <= rx < ROOM_GRID && 0 <= ry < ROOM_GRID ==> #[trigger] final(self).hotness(
                    rx,
                    ry,
                ) == (if (exists|k: int|
                    #![trigger ret@[k]]
                    0 <= k < ret@.len() && old(self).room_near(
                        ret@[k].x as int,
                        ret@[k].y as int,
                        rx,
                        ry,
                    )) {
                    HOT_LEVEL
                } else {
                    decay_counter(old(self).hotness(rx, ry))
                }),
            (forall|rx: int, ry: int|
                0 <= rx < ROOM_GRID && 0 <= ry < ROOM_GRID ==> #[trigger] old(self).hotness(rx, ry)
                    == 0) ==> ret@.len() == 0,
    {
        self.decay_rooms();
        let ghost decayed = *self;
        let mut ret: Vec<Vector2<usize>> = Vec::new();
        let mut rx: usize = 0;
        while rx < ROOM_GRID
            invariant
                rx <= ROOM_GRID,
                self.frame_pass_inv(*old(self), ret@),
                self.grid_rooms_hotness == decayed.grid_rooms_hotness,
            decreases ROOM_GRID - rx,
        {
            let mut ry: usize = 0;
            while ry < ROOM_GRID
                invariant
                    ry <= ROOM_GRID,
                    self.frame_pass_inv(*old(self), ret@),
                    self.grid_rooms_hotness == decayed.grid_rooms_hotness,
                decreases ROOM_GRID - ry,
            {
                let hotv: usize = *self.grid_rooms_hotness.get(rx, ry);
                if hotv > 0 {
                    let ghost before = *self;
                    let ghost ret_pre = ret@;
                    let mut sub: Vec<Vector2<usize>> = self.process_room(rx, ry);
                    let ghost subv = sub@;
                    ret.append(&mut sub);
                    proof {
                        let prev = *old(self);
                        assert(ret@ == ret_pre + subv);
                        assert forall|i: int, j: int|
                            #![trigger self.cell(i, j)]
                            #![trigger prev.cell(i, j)]
                            prev.in_range(i, j) implies {
                            &&& (prev.cell(i, j) is Block ==> self.cell(i, j) == prev.cell(i, j))
                            &&& (self.cell(i, j) is Block ==> self.cell(i, j) == prev.cell(i, j))
                            &&& (j == prev.spec_height() - 1 && !(prev.cell(i, j) is Empty)
                                ==> self.cell(i, j) == prev.cell(i, j))
                            &&& (self.cell(i, j) != prev.cell(i, j) ==> ret@.contains(
                                Vector2 { x: i as usize, y: j as usize },
                            ))
                        } by {
                            let v = Vector2 { x: i as usize, y: j as usize };
                            assert(before.in_range(i, j));
                            if self.cell(i, j) is Block {
                                assert(self.cell(i, j) == before.cell(i, j));
                                assert(before.cell(i, j) == prev.cell(i, j));
                            }
                            if self.cell(i, j) != prev.cell(i, j) {
                                if self.cell(i, j) != before.cell(i, j) {
                                    assert(subv.contains(v));
                                    let t = choose|t: int|
                                        0 <= t < subv.len() && subv[t] == v;
                                    assert(ret@[ret_pre.len() + t] == v);
                                    assert(ret@.contains(v));
                                } else {
                                    assert(before.cell(i, j) != prev.cell(i, j));
                                    assert(ret_pre.contains(v));
                                    let t = choose|t: int|
                                        0 <= t < ret_pre.len() && ret_pre[t] == v;
                                    assert(ret@[t] == v);
                                    assert(ret@.contains(v));
                                }
                            }
                        }
                        assert forall|k: int|
                            0 <= k < ret@.len() implies prev.in_range(
                            #[trigger] ret@[k].x as int,
                            ret@[k].y as int,
                        ) by {
                            if k < ret_pre.len() {
                                assert(ret@[k] == ret_pre[k]);
                            } else {
                                assert(ret@[k] == subv[k - ret_pre.len()]);
                            }
                        }
                        assert forall|c: (u8, u8, u8)| #[trigger] self.sand_total_colored(c)
                            == prev.sand_total_colored(c) by {
                            assert(self.sand_total_colored(c) == before.sand_total_colored(c));
                            assert(before.sand_total_colored(c) == prev.sand_total_colored(c));
                        }
                        lemma_fundamental_div_mod(ret_pre.len() as int, 2);
                        assert forall|p: int|
                            #![trigger ret@[2 * p + 1]]
                            0 <= 2 * p + 1 < ret@.len() implies {
                            let s = ret@[2 * p];
                            let d = ret@[2 * p + 1];
                            &&& s.y < d.y
                            &&& s.x as int - 4 <= d.x as int <= s.x as int + 4
                            &&& (d.x != s.x ==> d.y == s.y + 1)
                        } by {
                            let half = ret_pre.len() as int / 2;
                            assert(ret_pre.len() == 2 * half);
                            if p < half {
                                assert(ret@[2 * p] == ret_pre[2 * p]);
                                assert(ret@[2 * p + 1] == ret_pre[2 * p + 1]);
                            } else {
                                let m = p - half;
                                assert(ret@[2 * p] == subv[2 * m]);
                                assert(ret@[2 * p + 1] == subv[2 * m + 1]);
                                assert(subv[2 * m].y < subv[2 * m + 1].y);
                            }
                        }
                        if forall|qx: int, qy: int|
                            0 <= qx < ROOM_GRID && 0 <= qy < ROOM_GRID
                                ==> #[trigger] prev.hotness(qx, qy) == 0 {
                            assert(prev.hotness(rx as int, ry as int) == 0);
                            assert(decayed.hotness(rx as int, ry as int) == 0);
                            assert(before.hotness(rx as int, ry as int) == 0);
                            assert(false);
                        }
                    }
                }
                ry = ry + 1;
            }
            rx = rx + 1;
        }
        proof {
            let prev = *old(self);
            assert forall|qx: int, qy: int|
                0 <= qx < ROOM_GRID && 0 <= qy < ROOM_GRID implies #[trigger] self.hotness(qx, qy)
                == decay_counter(prev.hotness(qx, qy)) by {
                assert(self.grid_rooms_hotness == decayed.grid_rooms_hotness);
                assert(decayed.hotness(qx, qy) == decay_counter(prev.hotness(qx, qy)));
            }
        }
        let mut t: usize = 0;
        while t < ret.len()
            invariant
                t <= ret@.len(),
                self.frame_pass_inv(*old(self), ret@),
                forall|qx: int, qy: int|
                    0 <= qx < ROOM_GRID && 0 <= qy < ROOM_GRID ==> #[trigger] self.hotness(qx, qy)
                        == (if (exists|k: int|
                        #![trigger ret@[k]]
                        0 <= k < t && old(self).room_near(
                            ret@[k].x as int,
                            ret@[k].y as int,
                            qx,
                            qy,
                        )) {
                        HOT_LEVEL
                    } else {
                        decay_counter(old(self).hotness(qx, qy))
                    }),
            decreases ret@.len() - t,
        {
            let v: Vector2<usize> = ret[t];
            let ghost before = *self;
            self.hot(v.x, v.y);
            proof {
                let prev = *old(self);
                assert forall|i: int, j: int|
                    #![trigger self.cell(i, j)]
                    #![trigger prev.cell(i, j)]
                    prev.in_range(i, j) implies {
                    &&& (prev.cell(i, j) is Block ==> self.cell(i, j) == prev.cell(i, j))
                    &&& (self.cell(i, j) is Block ==> self.cell(i, j) == prev.cell(i, j))
                    &&& (j == prev.spec_height() - 1 && !(prev.cell(i, j) is Empty) ==> self.cell(
                        i,
                        j,
                    ) == prev.cell(i, j))
                    &&& (self.cell(i, j) != prev.cell(i, j) ==> ret@.contains(
                        Vector2 { x: i as usize, y: j as usize },
                    ))
                } by {
                    assert(self.grid == before.grid);
                    assert(self.cell(i, j) == before.cell(i, j));
                }
                assert forall|c: (u8, u8, u8)| #[trigger] self.sand_total_colored(c)
                    == prev.sand_total_colored(c) by {
                    assert(self.grid == before.grid);
                    assert(self.sand_total_colored(c) == before.sand_total_colored(c));
                    assert(before.sand_total_colored(c) == prev.sand_total_colored(c));
                }
                assert(before.room_of_x(v.x as int) == prev.room_of_x(ret@[t as int].x as int));
                assert(before.room_of_y(v.y as int) == prev.room_of_y(ret@[t as int].y as int));
                assert forall|qx: int, qy: int|
                    0 <= qx < ROOM_GRID && 0 <= qy < ROOM_GRID implies #[trigger] self.hotness(
                    qx,
                    qy,
                ) == (if (exists|k: int|
                    #![trigger ret@[k]]
                    0 <= k < t + 1 && prev.room_near(ret@[k].x as int, ret@[k].y as int, qx, qy)) {
                    HOT_LEVEL
                } else {
                    decay_counter(prev.hotness(qx, qy))
                }) by {
                    assert(before.hotness(qx, qy) == (if (exists|k: int|
                        #![trigger ret@[k]]
                        0 <= k < t && prev.room_near(ret@[k].x as int, ret@[k].y as int, qx, qy)) {
                        HOT_LEVEL
                    } else {
                        decay_counter(prev.hotness(qx, qy))
                    }));
                    if prev.room_near(ret@[t as int].x as int, ret@[t as int].y as int, qx, qy) {
                        assert(self.hotness(qx, qy) == HOT_LEVEL);
                        assert(0 <= t < t + 1 && prev.room_near(
                            ret@[t as int].x as int,
                            ret@[t as int].y as int,
                            qx,
                            qy,
                        ));
                    } else {
                        assert(self.hotness(qx, qy) == before.hotness(qx, qy));
                        if exists|k: int|
                            #![trigger ret@[k]]
                            0 <= k < t && prev.room_near(
                                ret@[k].x as int,
                                ret@[k].y as int,
                                qx,
                                qy,
                            ) {
                            let k0 = choose|k: int|
                                0 <= k < t && prev.room_near(
                                    ret@[k].x as int,
                                    ret@[k].y as int,
                                    qx,
                                    qy,
                                );
                            assert(0 <= k0 < t + 1 && prev.room_near(
                                ret@[k0].x as int,
                                ret@[k0].y as int,
                                qx,
                                qy,
                            ));
                        } else {
                            if exists|k: int|
                                #![trigger ret@[k]]
                                0 <= k < t + 1 && prev.room_near(
                                    ret@[k].x as int,
                                    ret@[k].y as int,
                                    qx,
                                    qy,
                                ) {
                                let k1 = choose|k: int|
                                    0 <= k < t + 1 && prev.room_near(
                                        ret@[k].x as int,
                                        ret@[k].y as int,
                                        qx,
                                        qy,
                                    );
                                assert(k1 == t);
                                assert(false);
                            }
                        }
                    }
                }
            }
            t = t + 1;
        }
        ret
    }

    /// Everything a per-room pass maintains, relative to the state `prev`
    /// at the start of the pass and the room's clipped cell rectangle
    /// `[x_lo, x_hi) x [y_lo, y_hi)`: the grid stays well-formed with the
    /// same geometry, the activity map is untouched, the sand count is
    /// conserved color by color, blocks neither move nor appear, occupied
    /// bottom-row cells never change, a cell not claimed as a destination
    /// is either unchanged or emptied, every changed cell is reported in
    /// `ret`, `ret` alternates in-bounds source/destination pairs with
    /// sources inside the rectangle, destinations are claimed and
    /// pairwise distinct, each destination holds a sand cell with the
    /// color of the sand its paired source held in `prev`, every move
    /// goes strictly down with a sideways step only onto the next row,
    /// and a source not reused as a destination ends up empty.
    spec fn room_pass_inv(
        &self,
        prev: World,
        claimed: GridMap<bool>,
        ret: Seq<Vector2<usize>>,
        x_lo: int,
        x_hi: int,
        y_lo: int,
        y_hi: int,
    ) -> bool {
        &&& prev.wf()
        &&& self.grid.wf()
        &&& self.grid.spec_width() == prev.spec_width()
        &&& self.grid.spec_height() == prev.spec_height()
        &&& self.grid_rooms_hotness == prev.grid_rooms_hotness
        &&& self.room_size == prev.room_size
        &&& claimed.wf()
        &&& claimed.spec_width() == prev.spec_width()
        &&& claimed.spec_height() == prev.spec_height()
        &&& self.sand_total() == prev.sand_total()
        &&& forall|c: (u8, u8, u8)|
            #[trigger] self.sand_total_colored(c) == prev.sand_total_colored(c)
        &&& forall|i: int, j: int|
            #![trigger self.cell(i, j)]
            #![trigger prev.cell(i, j)]
            #![trigger claimed.at(i, j)]
            prev.in_range(i, j) ==> {
                &&& (prev.cell(i, j) is Block ==> self.cell(i, j) == prev.cell(i, j))
                &&& (self.cell(i, j) is Block ==> self.cell(i, j) == prev.cell(i, j))
                &&& (j == prev.spec_height() - 1 && !(prev.cell(i, j) is Empty) ==> self.cell(i, j)
                    == prev.cell(i, j))
                &&& (claimed.at(i, j) == false ==> self.cell(i, j) == prev.cell(i, j) || self.cell(
                    i,
                    j,
                ) is Empty)
                &&& (self.cell(i, j) != prev.cell(i, j) ==> ret.contains(
                    Vector2 { x: i as usize, y: j as usize },
                ))
            }
        &&& ret.len() % 2 == 0
        &&& forall|k: int|
            0 <= k < ret.len() ==> prev.in_range(#[trigger] ret[k].x as int, ret[k].y as int)
        &&& forall|k: int|
            0 <= k < ret.len() && k % 2 == 1 ==> claimed.at(
                #[trigger] ret[k].x as int,
                ret[k].y as int,
            ) == true
        &&& forall|k1: int, k2: int|
            #![trigger ret[k1], ret[k2]]
            0 <= k1 < k2 < ret.len() && k1 % 2 == 1 && k2 % 2 == 1 ==> ret[k1] != ret[k2]
        &&& forall|p: int|
            #![trigger ret[2 * p]]
            0 <= 2 * p < ret.len() ==> {
                let s = ret[2 * p];
                &&& x_lo <= s.x < x_hi
                &&& y_lo <= s.y < y_hi
            }
        &&& forall|p: int|
            #![trigger ret[2 * p + 1]]
            0 <= 2 * p + 1 < ret.len() ==> {
                let s = ret[2 * p];
                let d = ret[2 * p + 1];
                &&& prev.cell(s.x as int, s.y as int) is Sand
                &&& self.cell(d.x as int, d.y as int) is Sand
                &&& cell_color(self.cell(d.x as int, d.y as int)) == cell_color(
                    prev.cell(s.x as int, s.y as int),
                )
                &&& s.y < d.y
                &&& s.x as int - 4 <= d.x as int <= s.x as int + 4
                &&& (d.x != s.x ==> d.y == s.y + 1)
                &&& (self.cell(s.x as int, s.y as int) is Empty || exists|q: int|
                    0 <= q < ret.len() && q % 2 == 1 && ret[q] == s)
            }
    }

    /// One pass over the sub-rectangle of the grid owned by room
    /// `(room_x, room_y)`, clipped so the bottom grid row is never
    /// simulated and acts as a permanent floor. Columns are scanned in
    /// ascending order; the rows of the room are randomly permuted and
    /// consumed in the reverse of that permuted order (the scan-order
    /// policy the whole simulation uses). Returns the source/destination
    /// pairs of every committed move.
    #[verifier::loop_isolation(false)]
    #[verifier::rlimit(100)]
    fn process_room(&mut self, room_x: usize, room_y: usize) -> (ret: Vec<Vector2<usize>>)
        requires
            old(self).wf(),
            room_x < ROOM_GRID,
            room_y < ROOM_GRID,
        ensures
            final(self).wf(),
            final(self).spec_width() == old(self).spec_width(),
            final(self).spec_height() == old(self).spec_height(),
            final(self).room_size == old(self).room_size,
            final(self).grid_rooms_hotness == old(self).grid_rooms_hotness,
            final(self).sand_total() == old(self).sand_total(),
            forall|c: (u8, u8, u8)|
                #[trigger] final(self).sand_total_colored(c) == old(self).sand_total_colored(c),
            forall|i: int, j: int|
                #![trigger final(self).cell(i, j)]
                #![trigger old(self).cell(i, j)]
                old(self).in_range(i, j) ==> {
                    &&& (old(self).cell(i, j) is Block ==> final(self).cell(i, j) == old(
                        self,
                    ).cell(i, j))
                    &&& (final(self).cell(i, j) is Block ==> final(self).cell(i, j) == old(
                        self,
                    ).cell(i, j))
                    &&& (j == old(self).spec_height() - 1 && !(old(self).cell(i, j) is Empty)
                        ==> final(self).cell(i, j) == old(self).cell(i, j))
                    &&& (final(self).cell(i, j) != old(self).cell(i, j) ==> ret@.contains(
                        Vector2 { x: i as usize, y: j as usize },
                    ))
                },
            ret@.len() % 2 == 0,
            forall|k: int|
                0 <= k < ret@.len() ==> old(self).in_range(
                    #[trigger] ret@[k].x as int,
                    ret@[k].y as int,
                ),
            forall|k1: int, k2: int|
                #![trigger ret@[k1], ret@[k2]]
                0 <= k1 < k2 < ret@.len() && k1 % 2 == 1 && k2 % 2 == 1 ==> ret@[k1] != ret@[k2],
            forall|p: int|
                #![trigger ret@[2 * p]]
                0 <= 2 * p < ret@.len() ==> {
                    let s = ret@[2 * p];
                    &&& room_x * old(self).room_w() <= s.x
                    &&& (s.x as int) < room_x * old(self).room_w() + old(self).room_w()
                    &&& s.x < old(self).spec_width()
                    &&& room_y * old(self).room_h() <= s.y
                    &&& (s.y as int) < room_y * old(self).room_h() + old(self).room_h()
                    &&& (s.y as int) < old(self).spec_height() - 1
                },
            forall|p: int|
                #![trigger ret@[2 * p + 1]]
                0 <= 2 * p + 1 < ret@.len() ==> {
                    let s = ret@[2 * p];
                    let d = ret@[2 * p + 1];
                    &&& old(self).cell(s.x as int, s.y as int) is Sand
                    &&& final(self).cell(d.x as int, d.y as int) is Sand
                    &&& cell_color(final(self).cell(d.x as int, d.y as int)) == cell_color(
                        old(self).cell(s.x as int, s.y as int),
                    )
                    &&& s.y < d.y
                    &&& s.x as int - 4 <= d.x as int <= s.x as int + 4
                    &&& (d.x != s.x ==> d.y == s.y + 1)
                    &&& (final(self).cell(s.x as int, s.y as int) is Empty || exists|q: int|
                        0 <= q < ret@.len() && q % 2 == 1 && ret@[q] == s)
                },
    {
        let room_size: Vector2<usize> = self.room_size;
        let height: usize = self.height();
        let width: usize = self.width();
        proof {
            lemma_mul_le(room_x as int, 23, room_size.x as int, room_size.x as int);
            lemma_mul_le(room_y as int, 23, room_size.y as int, room_size.y as int);
        }
        let x_lo: usize = room_x * room_size.x;
        let x_cap: usize = x_lo + room_size.x;
        let x_hi: usize = if width < x_cap {
            width
        } else {
            x_cap
        };
        let y_lo: usize = room_y * room_size.y;
        let y_cap: usize = y_lo + room_size.y;
        let floor_row: usize = if height == 0 {
            0
        } else {
            height - 1
        };
        let y_hi: usize = if floor_row < y_cap {
            floor_row
        } else {
            y_cap
        };
        let mut yvec: Vec<usize> = Vec::new();
        let mut yy: usize = y_lo;
        while yy < y_hi
            invariant
                y_lo <= yy,
                yy <= y_hi || yy == y_lo,
                yvec@.len() == yy - y_lo,
                forall|t: int| 0 <= t < yvec@.len() ==> #[trigger] yvec@[t] == y_lo + t,
            decreases y_hi - yy,
        {
            yvec.push(yy);
            yy = yy + 1;
        }
        let ghost ys0 = yvec@;
        shuffle(&mut yvec);
        proof {
            broadcast use vstd::seq_lib::group_to_multiset_ensures;
            assert forall|t: int| 0 <= t < yvec@.len() implies y_lo <= #[trigger] yvec@[t]
                < y_hi by {
                assert(yvec@.contains(yvec@[t]));
                assert(yvec@.to_multiset().count(yvec@[t]) > 0);
                assert(ys0.to_multiset().count(yvec@[t]) > 0);
                assert(ys0.contains(yvec@[t]));
                let u = choose|u: int| 0 <= u < ys0.len() && ys0[u] == yvec@[t];
                assert(ys0[u] == y_lo + u);
            }
        }
        let mut claimed: GridMap<bool> = GridMap::new(width, height, false);
        let mut ret: Vec<Vector2<usize>> = Vec::new();
        let mut sx: usize = x_lo;
        while sx < x_hi
            invariant
                self.room_pass_inv(
                    *old(self),
                    claimed,
                    ret@,
                    x_lo as int,
                    x_hi as int,
                    y_lo as int,
                    y_hi as int,
                ),
                x_lo <= sx,
            decreases x_hi - sx,
        {
            let mut k: usize = yvec.len();
            while k > 0
                invariant
                    self.room_pass_inv(
                        *old(self),
                        claimed,
                        ret@,
                        x_lo as int,
                        x_hi as int,
                        y_lo as int,
                        y_hi as int,
                    ),
                    x_lo <= sx,
                    sx < x_hi,
                    k <= yvec.len(),
                decreases k,
            {
                k = k - 1;
                let y: usize = yvec[k];
                let x: usize = sx;
                let cur: CellType = *self.grid.get(x, y);
                match cur {
                    CellType::Empty => {},
                    CellType::Block(_) => {},
                    CellType::Sand(data) => {
                        let already: bool = *claimed.get(x, y);
                        if !already {
                            let vy0: i64 = data.speed.y;
                            let vy: i64 = if vy0 >= SPEED_LIMIT {
                                vy0
                            } else {
                                vy0 + GRAVITY_STEP
                            };
                            let moved = ParticleData {
                                speed: Vector2 { x: data.speed.x, y: vy },
                                color: data.color,
                            };
                            let take_floor: bool = rand_below(2) == 0;
                            let q: i64 = if vy <= 0 {
                                0
                            } else if take_floor {
                                vy / SPEED_SCALE
                            } else {
                                (vy - 1) / SPEED_SCALE + 1
                            };
                            let max_dy: usize = if q > height as i64 {
                                height
                            } else {
                                q as usize
                            };
                            let mut new_pos: Option<Vector2<usize>> = None;
                            let mut new_data: ParticleData = moved;
                            let probe: bool = rand_below(20) < 19;
                            if probe {
                                let mut dy: usize = 1;
                                let mut done: bool = false;
                                while dy <= max_dy && !done
                                    invariant
                                        1 <= dy,
                                        forall|j: int|
                                            y < j < y + dy ==> j < height && #[trigger] self.cell(
                                                x as int,
                                                j,
                                            ) is Empty,
                                        !done ==> new_pos is None && new_data == moved,
                                        new_data.color == data.color,
                                        (match new_pos {
                                            Option::None => true,
                                            Option::Some(p) => p.x == x && y < p.y && p.y + 1
                                                <= height && self.cell(
                                                p.x as int,
                                                p.y as int,
                                            ) is Empty,
                                        }),
                                    decreases max_dy + 1 - dy, (if done { 0int } else { 1int }),
                                {
                                    if dy == max_dy && y + dy < height && cell_is_empty(
                                        self.grid.get(x, y + dy),
                                    ) {
                                        new_pos = Some(Vector2 { x, y: y + dy });
                                        new_data = moved;
                                        done = true;
                                    } else if y + dy >= height || !cell_is_empty(
                                        self.grid.get(x, y + dy),
                                    ) {
                                        if dy > 1 {
                                            new_pos = Some(Vector2 { x, y: y + dy - 1 });
                                            new_data = ParticleData {
                                                speed: Vector2 {
                                                    x: moved.speed.x,
                                                    y: vy / LANDING_DAMP_DIV,
                                                },
                                                color: moved.color,
                                            };
                                        }
                                        done = true;
                                    } else {
                                        dy = dy + 1;
                                    }
                                }
                            }
                            let below_is_empty: bool = y + 1 < height && cell_is_empty(
                                self.grid.get(x, y + 1),
                            );
                            if new_pos.is_none() && y > 0 && y + 1 < height {
                                let rand_dx: usize = 2 + rand_below(3);
                                if x > rand_dx && x < width - rand_dx && !below_is_empty
                                    && !cell_is_empty(self.grid.get(x, y - 1)) {
                                    let right_empty: bool = cell_is_empty(
                                        self.grid.get(x + rand_dx, y + 1),
                                    );
                                    let left_empty: bool = cell_is_empty(
                                        self.grid.get(x - rand_dx, y + 1),
                                    );
                                    if right_empty && !left_empty {
                                        new_pos = Some(Vector2 { x: x + rand_dx, y: y + 1 });
                                        new_data = ParticleData {
                                            speed: Vector2 { x: moved.speed.x, y: SLIDE_SPEED },
                                            color: moved.color,
                                        };
                                    } else if left_empty && !right_empty {
                                        new_pos = Some(Vector2 { x: x - rand_dx, y: y + 1 });
                                        new_data = ParticleData {
                                            speed: Vector2 { x: moved.speed.x, y: SLIDE_SPEED },
                                            color: moved.color,
                                        };
                                    }
                                }
                            }
                            if new_pos.is_none() && y + 1 < height && !below_is_empty {
                                let mut fall_right: bool = x + 1 < width && cell_is_empty(
                                    self.grid.get(x + 1, y + 1),
                                );
                                let mut fall_left: bool = x > 0 && cell_is_empty(
                                    self.grid.get(x - 1, y + 1),
                                );
                                if fall_left && fall_right {
                                    fall_right = rand_below(2) == 0;
                                    fall_left = !fall_right;
                                }
                                if fall_right {
                                    new_pos = Some(Vector2 { x: x + 1, y: y + 1 });
                                    new_data = moved;
                                } else if fall_left {
                                    new_pos = Some(Vector2 { x: x - 1, y: y + 1 });
                                    new_data = moved;
                                }
                            }
                            match new_pos {
                                None => {},
                                Some(np) => {
                                    let np_claimed: bool = *claimed.get(np.x, np.y);
                                    if !np_claimed {
                                        proof {
                                            let w = self.grid.spec_width() as int;
                                            let h = self.grid.spec_height() as int;
                                            self.grid.lemma_cells_at(x as int, y as int);
                                            self.grid.lemma_cells_at(np.x as int, np.y as int);
                                            lemma_grid_index(w, h, x as int, y as int);
                                            lemma_grid_index(w, h, np.x as int, np.y as int);
                                            lemma_grid_index_injective(
                                                w,
                                                x as int,
                                                y as int,
                                                np.x as int,
                                                np.y as int,
                                            );
                                            lemma_count_sand_update(
                                                self.grid.cells(),
                                                x + y * w,
                                                CellType::Empty,
                                            );
                                            lemma_count_sand_update(
                                                self.grid.cells().update(x + y * w, CellType::Empty),
                                                np.x + np.y * w,
                                                CellType::Sand(new_data),
                                            );
                                        }
                                        let ghost mid = *self;
                                        let ghost ret_pre = ret@;
                                        let ghost claimed_pre = claimed;
                                        self.grid.set(x, y, CellType::Empty);
                                        self.grid.set(np.x, np.y, CellType::Sand(new_data));
                                        ret.push(Vector2 { x, y });
                                        ret.push(np);
                                        claimed.set(np.x, np.y, true);
                                        proof {
                                            let prev = *old(self);
                                            let src = Vector2 { x, y };
                                            let w = prev.spec_width() as int;
                                            assert(mid.room_pass_inv(
                                                prev,
                                                claimed_pre,
                                                ret_pre,
                                                x_lo as int,
                                                x_hi as int,
                                                y_lo as int,
                                                y_hi as int,
                                            ));
                                            assert(ret@ == ret_pre.push(src).push(np));
                                            assert(ret@.len() == ret_pre.len() + 2);
                                            assert(ret@[ret_pre.len() as int] == src);
                                            assert(ret@[ret_pre.len() as int + 1] == np);
                                            assert forall|t: int| 0 <= t < ret_pre.len() implies
                                                #[trigger] ret@[t] == ret_pre[t] by {}
                                            assert(mid.cell(x as int, y as int) == prev.cell(
                                                x as int,
                                                y as int,
                                            ));
                                            assert(prev.cell(x as int, y as int) is Sand);
                                            assert(mid.cell(np.x as int, np.y as int) is Empty);
                                            assert(!(prev.cell(np.x as int, np.y as int) is Block));
                                            assert forall|i: int, j: int|
                                                prev.in_range(i, j) && !(i == x && j == y) && !(i
                                                    == np.x && j == np.y) implies #[trigger] self.cell(
                                                i,
                                                j,
                                            ) == mid.cell(i, j) by {}
                                            assert(self.cell(np.x as int, np.y as int)
                                                == CellType::Sand(new_data));
                                            assert(self.cell(x as int, y as int) is Empty);
                                            assert(self.sand_total() == prev.sand_total());
                                            assert forall|c: (u8, u8, u8)|
                                                #[trigger] self.sand_total_colored(c)
                                                == prev.sand_total_colored(c) by {
                                                lemma_count_sand_colored_update(
                                                    mid.grid.cells(),
                                                    x + y * w,
                                                    CellType::Empty,
                                                    c,
                                                );
                                                lemma_count_sand_colored_update(
                                                    mid.grid.cells().update(
                                                        x + y * w,
                                                        CellType::Empty,
                                                    ),
                                                    np.x + np.y * w,
                                                    CellType::Sand(new_data),
                                                    c,
                                                );
                                                assert(mid.sand_total_colored(c)
                                                    == prev.sand_total_colored(c));
                                            }
                                            assert forall|p: int|
                                                #![trigger ret@[2 * p]]
                                                0 <= 2 * p < ret@.len() implies {
                                                let s = ret@[2 * p];
                                                &&& x_lo <= s.x < x_hi
                                                &&& y_lo <= s.y < y_hi
                                            } by {
                                                if 2 * p == ret_pre.len() {
                                                    assert(ret@[2 * p] == src);
                                                } else {
                                                    assert(2 * p < ret_pre.len());
                                                    assert(ret@[2 * p] == ret_pre[2 * p]);
                                                }
                                            }
                                            assert forall|i: int, j: int|
                                                prev.in_range(i, j) && self.cell(i, j) != prev.cell(
                                                    i,
                                                    j,
                                                ) implies ret@.contains(
                                                Vector2 { x: i as usize, y: j as usize },
                                            ) by {
                                                let v = Vector2 { x: i as usize, y: j as usize };
                                                if i == x && j == y {
                                                    assert(ret@[ret_pre.len() as int] == v);
                                                } else if i == np.x as int && j == np.y as int {
                                                    assert(ret@[ret_pre.len() as int + 1] == v);
                                                } else {
                                                    assert(mid.cell(i, j) != prev.cell(i, j));
                                                    assert(ret_pre.contains(v));
                                                    let t = choose|t: int|
                                                        0 <= t < ret_pre.len() && ret_pre[t] == v;
                                                    assert(ret@[t] == v);
                                                }
                                            }
                                            assert forall|k1: int, k2: int|
                                                #![trigger ret@[k1], ret@[k2]]
                                                0 <= k1 < k2 < ret@.len() && k1 % 2 == 1 && k2 % 2
                                                    == 1 implies ret@[k1] != ret@[k2] by {
                                                if k2 == ret_pre.len() + 1 {
                                                    assert(claimed.at(np.x as int, np.y as int)
                                                        == true);
                                                    assert(ret@[k1] == ret_pre[k1]);
                                                }
                                            }
                                            assert forall|p: int|
                                                #![trigger ret@[2 * p + 1]]
                                                0 <= 2 * p + 1 < ret@.len() implies {
                                                let s = ret@[2 * p];
                                                let d = ret@[2 * p + 1];
                                                &&& prev.cell(s.x as int, s.y as int) is Sand
                                                &&& self.cell(d.x as int, d.y as int) is Sand
                                                &&& cell_color(self.cell(d.x as int, d.y as int))
                                                    == cell_color(prev.cell(s.x as int, s.y as int))
                                                &&& s.y < d.y
                                                &&& s.x as int - 4 <= d.x as int <= s.x as int + 4
                                                &&& (d.x != s.x ==> d.y == s.y + 1)
                                                &&& (self.cell(s.x as int, s.y as int) is Empty
                                                    || exists|q: int|
                                                    0 <= q < ret@.len() && q % 2 == 1 && ret@[q]
                                                        == s)
                                            } by {
                                                if 2 * p + 1 == ret_pre.len() + 1 {
                                                    assert(ret@[2 * p] == src);
                                                    assert(ret@[2 * p + 1] == np);
                                                    assert(self.cell(src.x as int, src.y as int) is Empty);
                                                } else {
                                                    assert(2 * p + 1 < ret_pre.len());
                                                    assert(ret@[2 * p] == ret_pre[2 * p]);
                                                    assert(ret@[2 * p + 1] == ret_pre[2 * p + 1]);
                                                    let s2 = ret_pre[2 * p];
                                                    let d = ret_pre[2 * p + 1];
                                                    assert(claimed_pre.at(d.x as int, d.y as int)
                                                        == true);
                                                    assert(!(d.x as int == x && d.y as int == y));
                                                    assert(!(d.x as int == np.x as int && d.y as int
                                                        == np.y as int));
                                                    assert(self.cell(d.x as int, d.y as int)
                                                        == mid.cell(d.x as int, d.y as int));
                                                    if mid.cell(s2.x as int, s2.y as int) is Empty {
                                                        if s2 == np {
                                                            assert(ret@[ret_pre.len() as int + 1]
                                                                == s2);
                                                            assert((ret_pre.len() as int + 1) % 2
                                                                == 1);
                                                        } else if s2 == src {
                                                            assert(self.cell(
                                                                s2.x as int,
                                                                s2.y as int,
                                                            ) is Empty);
                                                        } else {
                                                            assert(self.cell(
                                                                s2.x as int,
                                                                s2.y as int,
                                                            ) == mid.cell(s2.x as int, s2.y as int));
                                                        }
                                                    } else {
                                                        let q = choose|q: int|
                                                            0 <= q < ret_pre.len() && q % 2 == 1
                                                                && ret_pre[q] == s2;
                                                        assert(ret@[q] == s2);
                                                    }
                                                }
                                            }
                                        }
                                    }
                                },
                            }
                        }
                    },
                }
            }
            sx = sx + 1;
        }
        proof {
            let prev = *old(self);
            assert forall|rx: int, ry: int|
                0 <= rx < ROOM_GRID && 0 <= ry < ROOM_GRID implies #[trigger] self.hotness(rx, ry)
                <= HOT_LEVEL by {
                assert(prev.hotness(rx, ry) <= HOT_LEVEL);
                assert(self.grid_rooms_hotness == prev.grid_rooms_hotness);
            }
        }
        ret
    }
}

} // verus!
