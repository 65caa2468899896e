//! Dense toroidal board: a fixed-size array of optional cells, addressed
//! with wrap-around coordinates.
use vstd::prelude::*;

use crate::fixed::{PROB_ONE, STAT_CAP};

verus! {

/// A board coordinate; addressing is toroidal, so every value is meaningful.
pub type Coordinate = i32;

/// Upper bound on each board dimension, so that the cell array length and
/// the fixed-point ratio arithmetic stay within machine integers.
pub const MAX_GRID_DIM: i32 = 0x8000;

#[derive(Clone, Copy, Debug, PartialEq, Eq, Hash, Structural)]
pub struct Coordinates {
    pub x: Coordinate,
    pub y: Coordinate,
}

/// One live cell: its age in steps (at least 1), and exponentially blended
/// statistics of its ancestry, in fixed point over `PROB_ONE`.
#[derive(Clone, Copy, Debug, PartialEq, Eq)]
pub struct Cell {
    pub age: u32,
    pub avg_breed_age: i64,
    pub avg_velocity: [i64; 2],
}

#[derive(Debug)]
pub struct Grid {
    size: Coordinates,
    cells: Vec<Option<Cell>>,
}

/// Result of a full-board scan.
pub struct GridAnalysis {
    /// Fraction of live cells, in fixed point over `PROB_ONE`; zero exactly
    /// when no cell is alive (a nonzero count rounds up, never down to 0).
    pub alive_ratio: u32,
}

/// A cell whose statistics are inside the saturation bounds.
pub open spec fn cell_wf(c: Cell) -> bool {
    &&& c.age >= 1
    &&& -STAT_CAP <= c.avg_breed_age <= STAT_CAP
    &&& -STAT_CAP <= c.avg_velocity[0] <= STAT_CAP
    &&& -STAT_CAP <= c.avg_velocity[1] <= STAT_CAP
}

pub open spec fn opt_cell_wf(c: Option<Cell>) -> bool {
    match c {
        Some(cell) => cell_wf(cell),
        None => true,
    }
}

/// Euclidean remainder, the wrapped position of `v` on an axis of extent `m`.
pub open spec fn wrap(v: int, m: int) -> int {
    v % m
}

/// Number of live cells among the first `k` entries.
pub open spec fn alive_prefix(cells: Seq<Option<Cell>>, k: int) -> int
    decreases k,
{
    if k <= 0 {
        0
    } else {
        alive_prefix(cells, k - 1) + if cells[k - 1] is Some {
            1int
        } else {
            0int
        }
    }
}

impl Grid {
    pub closed spec fn spec_size(self) -> Coordinates {
        self.size
    }

    pub closed spec fn spec_cells(self) -> Seq<Option<Cell>> {
        self.cells@
    }

    pub open spec fn spec_area(self) -> int {
        self.spec_size().x * self.spec_size().y
    }

    pub open spec fn wf(self) -> bool {
        &&& 0 < self.spec_size().x <= MAX_GRID_DIM
        &&& 0 < self.spec_size().y <= MAX_GRID_DIM
        &&& self.spec_cells().len() == self.spec_area()
        &&& forall|i: int|
            0 <= i < self.spec_cells().len() ==> opt_cell_wf(#[trigger] self.spec_cells()[i])
    }

    /// Index into the cell array of the wrapped coordinates `(x, y)`.
    pub open spec fn spec_index_of(self, x: int, y: int) -> int {
        wrap(y, self.spec_size().y as int) * self.spec_size().x + wrap(x, self.spec_size().x as int)
    }

    /// The cell at wrapped coordinates `(x, y)`.
    pub open spec fn spec_at(self, x: int, y: int) -> Option<Cell> {
        self.spec_cells()[self.spec_index_of(x, y)]
    }

    pub open spec fn spec_alive(self, x: int, y: int) -> bool {
        self.spec_at(x, y) is Some
    }

    /// Fraction of live cells in fixed point, rounded up so that it is zero
    /// exactly when the board is empty.
    pub open spec fn spec_alive_ratio(self) -> int {
        (alive_prefix(self.spec_cells(), self.spec_cells().len() as int) * PROB_ONE + self.spec_area() - 1)
            / self.spec_area()
    }

    pub proof fn lemma_index_in_range(self, x: int, y: int)
        requires
            self.wf(),
        ensures
            0 <= self.spec_index_of(x, y) < self.spec_cells().len(),
            0 <= wrap(y, self.spec_size().y as int) * self.spec_size().x,
    {
        let w = self.spec_size().x as int;
        let h = self.spec_size().y as int;
        let rx = wrap(x, w);
        let ry = wrap(y, h);
        assert(0 <= rx < w) by (nonlinear_arith)
            requires
                0 < w,
                rx == x % w,
        {}
        assert(0 <= ry < h) by (nonlinear_arith)
            requires
                0 < h,
                ry == y % h,
        {}
        assert(0 <= ry * w + rx < w * h) by (nonlinear_arith)
            requires
                0 <= rx < w,
                0 <= ry < h,
        {}
        assert(0 <= ry * w) by (nonlinear_arith)
            requires
                0 <= ry,
                0 < w,
        {}
    }

    pub fn new(size: Coordinates) -> (g: Grid)
        requires
            0 < size.x <= MAX_GRID_DIM,
            0 < size.y <= MAX_GRID_DIM,
        ensures
            g.wf(),
            g.spec_size() == size,
            g.spec_cells() =~= Seq::new((size.x * size.y) as nat, |i: int| None::<Cell>),
    {
        proof {
            assert(size.x * size.y <= 0x4000_0000) by (nonlinear_arith)
                requires
                    0 < size.x <= 0x8000,
                    0 < size.y <= 0x8000,
            {}
        }
        let area: usize = (size.x as usize) * (size.y as usize);
        let mut cells: Vec<Option<Cell>> = Vec::new();
        let mut i: usize = 0;
        while i < area
            invariant
                i <= area,
                cells@.len() == i,
                forall|j: int| 0 <= j < i ==> cells@[j] is None,
            decreases area - i,
        {
            cells.push(None);
            i = i + 1;
        }
        Grid { size, cells }
    }

    pub fn size(&self) -> (s: Coordinates)
        ensures
            s == self.spec_size(),
    {
        self.size
    }

    /// Array index of the wrapped coordinates.
    fn cell_index(&self, x: Coordinate, y: Coordinate) -> (i: usize)
        requires
            self.wf(),
        ensures
            i == self.spec_index_of(x as int, y as int),
            i < self.spec_cells().len(),
    {
        let w = self.size.x;
        let h = self.size.y;
        let rx: i32 = match x.checked_rem_euclid(w) {
            Some(r) => r,
            None => 0,  // unreachable: w > 0
        };
        let ry: i32 = match y.checked_rem_euclid(h) {
            Some(r) => r,
            None => 0,
        };
        proof {
            let xi = x as int;
            let yi = y as int;
            let wi = w as int;
            let hi = h as int;
            assert(0 <= xi % wi < wi) by (nonlinear_arith)
                requires
                    0 < wi,
            {}
            assert(0 <= yi % hi < hi) by (nonlinear_arith)
                requires
                    0 < hi,
            {}
            self.lemma_index_in_range(x as int, y as int);
            assert(wi * hi <= 0x4000_0000) by (nonlinear_arith)
                requires
                    0 < wi <= 0x8000,
                    0 < hi <= 0x8000,
            {}
            assert((yi % hi) * wi + xi % wi < wi * hi);
            assert(0 <= (yi % hi) * wi);
        }
        (ry as usize) * (w as usize) + (rx as usize)
    }

    /// Exclusive handle to the cell at wrapped coordinates `(x, y)`.
    pub fn mutate(&mut self, x: Coordinate, y: Coordinate) -> (c: &mut Option<Cell>)
        requires
            old(self).wf(),
        ensures
            *c == old(self).spec_at(x as int, y as int),
            final(self).spec_size() == old(self).spec_size(),
            final(self).spec_cells() == old(self).spec_cells().update(
                old(self).spec_index_of(x as int, y as int),
                *final(c),
            ),
    {
        let i = self.cell_index(x, y);
        &mut self.cells[i]
    }

    /// Place a fresh cell (age 1, zero statistics) at wrapped `(x, y)`.
    pub fn init(&mut self, x: Coordinate, y: Coordinate)
        requires
            old(self).wf(),
        ensures
            final(self).wf(),
            final(self).spec_size() == old(self).spec_size(),
            final(self).spec_cells() == old(self).spec_cells().update(
                old(self).spec_index_of(x as int, y as int),
                Some(Cell { age: 1, avg_breed_age: 0, avg_velocity: [0, 0] }),
            ),
    {
        proof {
            self.lemma_index_in_range(x as int, y as int);
        }
        let ghost orig = *self;
        let c = self.mutate(x, y);
        *c = Some(Cell { age: 1, avg_breed_age: 0, avg_velocity: [0i64, 0i64] });
        proof {
            let idx = orig.spec_index_of(x as int, y as int);
            assert forall|i: int| 0 <= i < self.spec_cells().len() implies opt_cell_wf(
                #[trigger] self.spec_cells()[i],
            ) by {
                if i != idx {
                    assert(self.spec_cells()[i] == orig.spec_cells()[i]);
                }
            }
        }
    }

    pub fn get(&self, x: Coordinate, y: Coordinate) -> (c: Option<&Cell>)
        requires
            self.wf(),
        ensures
            match c {
                Some(cell) => self.spec_at(x as int, y as int) == Some(*cell),
                None => self.spec_at(x as int, y as int) is None,
            },
    {
        let i = self.cell_index(x, y);
        self.cells[i].as_ref()
    }

    /// Scan the whole board and report the live-cell ratio.
    pub fn analyze(&self) -> (a: GridAnalysis)
        requires
            self.wf(),
        ensures
            a.alive_ratio == self.spec_alive_ratio(),
            a.alive_ratio == 0 <==> alive_prefix(self.spec_cells(), self.spec_cells().len() as int)
                == 0,
            a.alive_ratio <= PROB_ONE,
    {
        let n = self.cells.len();
        let mut alive: usize = 0;
        let mut i: usize = 0;
        while i < n
            invariant
                i <= n,
                n == self.spec_cells().len(),
                alive == alive_prefix(self.spec_cells(), i as int),
                alive <= i,
            decreases n - i,
        {
            proof {
                lemma_alive_prefix_bounds(self.spec_cells(), i + 1);
            }
            if self.cells[i].is_some() {
                alive = alive + 1;
            }
            i = i + 1;
        }
        proof {
            let w = self.spec_size().x as int;
            let h = self.spec_size().y as int;
            assert(1 <= w * h <= 0x4000_0000) by (nonlinear_arith)
                requires
                    0 < w <= 0x8000,
                    0 < h <= 0x8000,
            {}
            lemma_alive_prefix_bounds(self.spec_cells(), n as int);
        }
        let area: u64 = n as u64;
        let ratio64: u64 = ((alive as u64) * (PROB_ONE as u64) + area - 1) / area;
        proof {
            let alive_i = alive as int;
            let area_i = area as int;
            assert(alive_i <= area_i);
            assert((alive_i * PROB_ONE + area_i - 1) / area_i <= PROB_ONE) by (nonlinear_arith)
                requires
                    0 < area_i,
                    0 <= alive_i <= area_i,
            {}
            if alive_i == 0 {
                assert((0 * PROB_ONE + area_i - 1) / area_i == 0) by (nonlinear_arith)
                    requires
                        0 < area_i,
                {}
            } else {
                assert((alive_i * PROB_ONE + area_i - 1) / area_i >= 1) by (nonlinear_arith)
                    requires
                        0 < area_i,
                        1 <= alive_i,
                        area_i <= 0x4000_0000,
                        PROB_ONE == 0x100_0000,
                {}
            }
            assert(area_i == self.spec_area());
        }
        GridAnalysis { alive_ratio: ratio64 as u32 }
    }
}

/// For coordinates inside the board, wrapping changes nothing and the
/// flat index is the plain row-major one.
pub proof fn lemma_index_identity(g: Grid, x: int, y: int)
    requires
        g.wf(),
        0 <= x < g.spec_size().x,
        0 <= y < g.spec_size().y,
    ensures
        g.spec_index_of(x, y) == y * g.spec_size().x + x,
        g.spec_at(x, y) == g.spec_cells()[y * g.spec_size().x + x],
{
    let w = g.spec_size().x as int;
    let h = g.spec_size().y as int;
    assert(x % w == x) by (nonlinear_arith)
        requires
            0 <= x < w,
    {}
    assert(y % h == y) by (nonlinear_arith)
        requires
            0 <= y < h,
    {}
}

/// A row-major flat index decomposes back into its row and column.
pub proof fn lemma_flat_index(w: int, y: int, x: int)
    requires
        0 < w,
        0 <= y,
        0 <= x < w,
    ensures
        (y * w + x) / w == y,
        (y * w + x) % w == x,
{
    vstd::arithmetic::div_mod::lemma_fundamental_div_mod_converse(y * w + x, w, y, x);
}

/// The live-cell count of a prefix is between 0 and the prefix length.
pub proof fn lemma_alive_prefix_bounds(cells: Seq<Option<Cell>>, k: int)
    requires
        k <= cells.len(),
    ensures
        0 <= alive_prefix(cells, k) <= if k >= 0 {
            k
        } else {
            0
        },
    decreases k,
{
    if k > 0 {
        lemma_alive_prefix_bounds(cells, k - 1);
    }
}

/// Toroidal wrap invariant: reading one full board extent away on either
/// axis reads the same cell.
pub proof fn lemma_toroidal_wrap(g: Grid, x: int, y: int)
    requires
        g.wf(),
    ensures
        g.spec_at(x + g.spec_size().x, y) == g.spec_at(x, y),
        g.spec_at(x, y + g.spec_size().y) == g.spec_at(x, y),
{
    let w = g.spec_size().x as int;
    let h = g.spec_size().y as int;
    assert((x + w) % w == x % w) by (nonlinear_arith)
        requires
            0 < w,
    {}
    assert((y + h) % h == y % h) by (nonlinear_arith)
        requires
            0 < h,
    {}
}

} // verus!
