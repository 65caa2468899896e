//! Board data: either a random-fill request or a packed textual board in
//! which each character stores four horizontally adjacent cells as a hex
//! nibble (bit 0 is the leftmost of the four).
use vstd::prelude::*;

use crate::ext::{push_char, rng_next_u32};
use crate::fixed::{Probability, PROB_ONE};
use crate::grid::{Cell, Coordinate, Coordinates, Grid, MAX_GRID_DIM};

verus! {

/// Upper bound on the length of a packed board line (a quarter of the
/// widest board).
pub const MAX_PACKED_LINE: usize = 0x2000;

#[derive(Debug)]
pub enum Data {
    Random { width: Coordinate, height: Coordinate, alive_ratio: Probability },
    Grid(Vec<String>),
}

#[derive(Clone, Copy, Debug, PartialEq, Eq)]
pub enum DataParseError {
    UnknownSymbol(char),
    WrongLineLength,
    WrongSize,
}

/// A cell as decoding creates it: age 1, no history.
pub open spec fn fresh_cell() -> Cell {
    Cell { age: 1, avg_breed_age: 0, avg_velocity: [0, 0] }
}

pub open spec fn is_hex_digit(c: char) -> bool {
    ||| 48 <= c as int <= 57
    ||| 97 <= c as int <= 102
    ||| 65 <= c as int <= 70
}

pub open spec fn is_lower_hex_digit(c: char) -> bool {
    ||| 48 <= c as int <= 57
    ||| 97 <= c as int <= 102
}

/// Value of a hex digit character.
pub open spec fn hex_val(c: char) -> u32 {
    if 48 <= c as int <= 57 {
        (c as int - 48) as u32
    } else if 97 <= c as int <= 102 {
        (10 + c as int - 97) as u32
    } else {
        (10 + c as int - 65) as u32
    }
}

/// Lower-case hex digit character of a value in `0..16`.
pub open spec fn hex_char(v: u32) -> char {
    if v >= 10 {
        ((87 + v) as u8) as char
    } else {
        ((48 + v) as u8) as char
    }
}

/// Bit `z` of a nibble, `z` in `0..4`.
pub open spec fn nibble_bit(v: u32, z: int) -> bool {
    if z == 0 {
        v & 1 != 0
    } else if z == 1 {
        v & 2 != 0
    } else if z == 2 {
        v & 4 != 0
    } else {
        v & 8 != 0
    }
}

/// The lines are non-empty, of one common positive length.
pub open spec fn lens_ok(lines: Seq<String>) -> bool {
    &&& lines.len() >= 1
    &&& lines[0]@.len() >= 1
    &&& forall|y: int| 0 <= y < lines.len() ==> (#[trigger] lines[y]@).len() == lines[0]@.len()
}

/// The board the lines describe fits the grid bounds.
pub open spec fn size_ok(lines: Seq<String>) -> bool {
    &&& lines.len() <= MAX_GRID_DIM
    &&& lines[0]@.len() <= MAX_PACKED_LINE
}

pub open spec fn all_hex(lines: Seq<String>) -> bool {
    forall|y: int, x: int|
        0 <= y < lines.len() && 0 <= x < lines[y]@.len() ==> is_hex_digit(#[trigger] lines[y]@[x])
}

/// The first non-hex character of the line at or after column `j`.
pub open spec fn spec_row_first_nonhex(line: Seq<char>, j: int) -> Option<char>
    decreases line.len() - j,
{
    if j < 0 || j >= line.len() {
        None
    } else if !is_hex_digit(line[j]) {
        Some(line[j])
    } else {
        spec_row_first_nonhex(line, j + 1)
    }
}

/// The first non-hex character in row-major scan order, searched from
/// row `y` on.
pub open spec fn spec_first_nonhex(lines: Seq<String>, y: int) -> Option<char>
    decreases lines.len() - y,
{
    if y < 0 || y >= lines.len() {
        None
    } else {
        match spec_row_first_nonhex(lines[y]@, 0) {
            Some(c) => Some(c),
            None => spec_first_nonhex(lines, y + 1),
        }
    }
}

/// The cells of a `width x height` board after placing a fresh cell at
/// each of the first `k` drawn coordinate pairs, wrapped, in order.
pub open spec fn spec_fill_cells(w: int, h: int, draws: Seq<(i32, i32)>, k: int) -> Seq<
    Option<Cell>,
>
    decreases k,
{
    if k <= 0 {
        Seq::new((w * h) as nat, |i: int| None::<Cell>)
    } else {
        spec_fill_cells(w, h, draws, k - 1).update(
            crate::grid::wrap(draws[k - 1].1 as int, h) * w + crate::grid::wrap(
                draws[k - 1].0 as int,
                w,
            ),
            Some(fresh_cell()),
        )
    }
}

/// Filling depends only on the draws actually consumed: two draw
/// sequences that agree on their first `k` pairs fill the same cells.
pub proof fn lemma_fill_cells_prefix_agree(
    w: int,
    h: int,
    a: Seq<(i32, i32)>,
    b: Seq<(i32, i32)>,
    k: int,
)
    requires
        k <= a.len(),
        k <= b.len(),
        forall|i: int| 0 <= i < k ==> a[i] == b[i],
    ensures
        spec_fill_cells(w, h, a, k) == spec_fill_cells(w, h, b, k),
    decreases k,
{
    if k > 0 {
        lemma_fill_cells_prefix_agree(w, h, a, b, k - 1);
    }
}

pub open spec fn all_lower_hex(lines: Seq<String>) -> bool {
    forall|y: int, x: int|
        0 <= y < lines.len() && 0 <= x < lines[y]@.len() ==> is_lower_hex_digit(
            #[trigger] lines[y]@[x],
        )
}

/// The cell that decoding the lines puts at flat index `i` of a board of
/// width `4 * lines[0].len()`.
pub open spec fn decoded_cell(lines: Seq<String>, w: int, i: int) -> Option<Cell> {
    if nibble_bit(hex_val(lines[i / w]@[(i % w) / 4]), (i % w) % 4) {
        Some(fresh_cell())
    } else {
        None
    }
}

/// `g` is the board that the packed lines decode to.
pub open spec fn spec_decoded_grid(lines: Seq<String>, g: Grid) -> bool {
    &&& g.spec_size().x == 4 * lines[0]@.len()
    &&& g.spec_size().y == lines.len()
    &&& forall|i: int|
        0 <= i < g.spec_cells().len() ==> #[trigger] g.spec_cells()[i] == decoded_cell(
            lines,
            g.spec_size().x as int,
            i,
        )
}

/// The nibble encoding cells `4*xc .. 4*xc+3` of row `y` of `g`.
pub open spec fn encoded_nibble(g: Grid, xc: int, y: int) -> u32 {
    let w = g.spec_size().x as int;
    ((if g.spec_cells()[y * w + 4 * xc] is Some {
        1u32
    } else {
        0u32
    }) + (if g.spec_cells()[y * w + 4 * xc + 1] is Some {
        2u32
    } else {
        0u32
    }) + (if g.spec_cells()[y * w + 4 * xc + 2] is Some {
        4u32
    } else {
        0u32
    }) + (if g.spec_cells()[y * w + 4 * xc + 3] is Some {
        8u32
    } else {
        0u32
    })) as u32
}

/// The lines are the packed encoding of `g`.
pub open spec fn spec_encoded_lines(g: Grid, lines: Seq<String>) -> bool {
    &&& lines.len() == g.spec_size().y
    &&& forall|y: int|
        0 <= y < lines.len() ==> (#[trigger] lines[y]@).len() == g.spec_size().x / 4
    &&& forall|y: int, xc: int|
        0 <= y < lines.len() && 0 <= xc < g.spec_size().x / 4 ==> (#[trigger] lines[y]@[xc])
            == hex_char(encoded_nibble(g, xc, y))
}

/// A random-fill request whose dimensions the grid accepts; the width is a
/// multiple of four so that the board can be packed again.
pub open spec fn random_dims_ok(width: int, height: int, alive_ratio: u32) -> bool {
    &&& 0 < width <= MAX_GRID_DIM
    &&& 0 < height <= MAX_GRID_DIM
    &&& width % 4 == 0
    &&& alive_ratio <= PROB_ONE
}

/// Every cell is either absent or fresh (age 1, zero statistics).
pub open spec fn all_fresh(g: Grid) -> bool {
    forall|i: int|
        0 <= i < g.spec_cells().len() ==> (#[trigger] g.spec_cells()[i] == None::<Cell>
            || g.spec_cells()[i] == Some(fresh_cell()))
}

impl Data {
    /// The data can be turned into a board: valid dimensions for a random
    /// request, or well-formed hex lines for a packed board.
    pub open spec fn spec_parse_ok(self) -> bool {
        match self {
            Data::Random { width, height, alive_ratio } => random_dims_ok(
                width as int,
                height as int,
                alive_ratio,
            ),
            Data::Grid(lines) => lens_ok(lines@) && size_ok(lines@) && all_hex(lines@)
                && spec_first_nonhex(lines@, 0) is None,
        }
    }

    /// `g` is a board this data describes: exactly the decoded cells for
    /// packed lines; for a random request, a board of the requested size
    /// built by `floor(width * height * alive_ratio)` placements of
    /// fresh cells at drawn, wrapped coordinates — drawn with
    /// replacement, so colliding draws leave fewer live cells than the
    /// target.
    pub open spec fn spec_parses_to(self, g: Grid) -> bool {
        &&& self.spec_parse_ok()
        &&& g.wf()
        &&& g.spec_size().x % 4 == 0
        &&& match self {
            Data::Random { width, height, alive_ratio } => {
                &&& g.spec_size() == (Coordinates { x: width, y: height })
                &&& all_fresh(g)
                &&& exists|draws: Seq<(i32, i32)>|
                    #![trigger spec_fill_cells(width as int, height as int, draws, draws.len() as int)]
                    draws.len() == (width * height * alive_ratio) / (PROB_ONE as int)
                        && g.spec_cells() == spec_fill_cells(
                        width as int,
                        height as int,
                        draws,
                        draws.len() as int,
                    )
            },
            Data::Grid(lines) => spec_decoded_grid(lines@, g),
        }
    }

    /// `e` is the error that this data parses to.
    pub open spec fn spec_parse_error_matches(self, e: DataParseError) -> bool {
        match e {
            DataParseError::WrongLineLength => match self {
                Data::Grid(lines) => !lens_ok(lines@),
                Data::Random { .. } => false,
            },
            DataParseError::WrongSize => match self {
                Data::Grid(lines) => lens_ok(lines@) && !size_ok(lines@),
                Data::Random { width, height, alive_ratio } => !random_dims_ok(
                    width as int,
                    height as int,
                    alive_ratio,
                ),
            },
            DataParseError::UnknownSymbol(c) => match self {
                Data::Grid(lines) => {
                    &&& lens_ok(lines@)
                    &&& size_ok(lines@)
                    // the reported character is the first unrecognized
                    // one in row-major scan order
                    &&& spec_first_nonhex(lines@, 0) == Some(c)
                },
                Data::Random { .. } => false,
            },
        }
    }

    /// Build the initial board: fill at random for a `Random` request
    /// (`count = floor(width * height * alive_ratio)` placements, drawn
    /// from `rng`), or decode packed lines.
    pub fn parse(&self, rng: &mut rand::rngs::StdRng) -> (r: Result<Grid, DataParseError>)
        ensures
            match r {
                Ok(g) => self.spec_parses_to(g),
                Err(e) => self.spec_parse_error_matches(e),
            },
    {
        match *self {
            Data::Random { width, height, alive_ratio } => {
                if width <= 0 || width > MAX_GRID_DIM || height <= 0 || height > MAX_GRID_DIM
                    || width % 4 != 0 || alive_ratio > PROB_ONE {
                    return Err(DataParseError::WrongSize);
                }
                let mut g = Grid::new(Coordinates { x: width, y: height });
                proof {
                    assert(0 < width * height <= 0x4000_0000) by (nonlinear_arith)
                        requires
                            0 < width <= 0x8000,
                            0 < height <= 0x8000,
                    {}
                }
                proof {
                    assert((width as int) * (height as int) * (alive_ratio as int) <= 0x4000_0000
                        * 0x100_0000) by (nonlinear_arith)
                        requires
                            0 < (width as int) * (height as int) <= 0x4000_0000,
                            0 <= alive_ratio as int <= 0x100_0000,
                    {}
                }
                let count: u64 = ((width as u64) * (height as u64) * (alive_ratio as u64))
                    / (PROB_ONE as u64);
                let mut placed: u64 = 0;
                let ghost mut draws: Seq<(i32, i32)> = Seq::empty();
                proof {
                    assert(g.spec_cells() =~= spec_fill_cells(
                        width as int,
                        height as int,
                        draws,
                        0,
                    ));
                }
                while placed < count
                    invariant
                        g.wf(),
                        g.spec_size() == (Coordinates { x: width, y: height }),
                        all_fresh(g),
                        placed <= count,
                        draws.len() == placed,
                        g.spec_cells() == spec_fill_cells(
                            width as int,
                            height as int,
                            draws,
                            placed as int,
                        ),
                    decreases count - placed,
                {
                    let xr: i32 = #[verifier::truncate] (rng_next_u32(rng) as i32);
                    let yr: i32 = #[verifier::truncate] (rng_next_u32(rng) as i32);
                    let ghost before = g;
                    let ghost old_draws = draws;
                    proof {
                        g.lemma_index_in_range(xr as int, yr as int);
                        draws = old_draws.push((xr, yr));
                    }
                    g.init(xr, yr);
                    proof {
                        assert forall|i: int| 0 <= i < g.spec_cells().len() implies (
                        #[trigger] g.spec_cells()[i] == None::<Cell> || g.spec_cells()[i] == Some(
                            fresh_cell(),
                        )) by {
                            let before_cell = before.spec_cells()[i];
                            assert(before_cell == None::<Cell> || before_cell == Some(
                                fresh_cell(),
                            ));
                        }
                        lemma_fill_cells_prefix_agree(
                            width as int,
                            height as int,
                            draws,
                            old_draws,
                            placed as int,
                        );
                        assert(draws[placed as int] == (xr, yr));
                        assert(spec_fill_cells(width as int, height as int, draws, placed + 1)
                            == spec_fill_cells(width as int, height as int, draws, placed as int)
                            .update(
                            crate::grid::wrap(yr as int, height as int) * width + crate::grid::wrap(
                                xr as int,
                                width as int,
                            ),
                            Some(fresh_cell()),
                        ));
                    }
                    placed = placed + 1;
                }
                proof {
                    assert(count as int == (width * height * alive_ratio) / (PROB_ONE as int));
                    assert(g.spec_cells() == spec_fill_cells(
                        width as int,
                        height as int,
                        draws,
                        draws.len() as int,
                    ));
                }
                Ok(g)
            },
            Data::Grid(ref lines) => Self::parse_packed(lines),
        }
    }

    /// Decode packed hex lines into a fresh board.
    fn parse_packed(lines: &Vec<String>) -> (r: Result<Grid, DataParseError>)
        ensures
            match r {
                Ok(g) => {
                    &&& g.wf()
                    &&& g.spec_size().x % 4 == 0
                    &&& lens_ok(lines@)
                    &&& size_ok(lines@)
                    &&& all_hex(lines@)
                    &&& spec_first_nonhex(lines@, 0) is None
                    &&& spec_decoded_grid(lines@, g)
                },
                Err(DataParseError::WrongLineLength) => !lens_ok(lines@),
                Err(DataParseError::WrongSize) => lens_ok(lines@) && !size_ok(lines@),
                Err(DataParseError::UnknownSymbol(c)) => {
                    &&& lens_ok(lines@)
                    &&& size_ok(lines@)
                    &&& spec_first_nonhex(lines@, 0) == Some(c)
                },
            },
    {
        let rows = lines.len();
        if rows == 0 {
            return Err(DataParseError::WrongLineLength);
        }
        let l0 = lines[0].as_str().unicode_len();
        if l0 == 0 {
            return Err(DataParseError::WrongLineLength);
        }
        let mut y: usize = 0;
        while y < rows
            invariant
                rows == lines@.len(),
                y <= rows,
                l0 == lines@[0]@.len(),
                forall|j: int| 0 <= j < y ==> (#[trigger] lines@[j]@).len() == l0,
            decreases rows - y,
        {
            if lines[y].as_str().unicode_len() != l0 {
                return Err(DataParseError::WrongLineLength);
            }
            y = y + 1;
        }
        if rows > MAX_GRID_DIM as usize || l0 > MAX_PACKED_LINE {
            return Err(DataParseError::WrongSize);
        }
        // reject the first unknown character, in row-major order
        let mut y: usize = 0;
        while y < rows
            invariant
                rows == lines@.len(),
                y <= rows,
                lens_ok(lines@),
                size_ok(lines@),
                l0 == lines@[0]@.len(),
                forall|j: int, x: int|
                    0 <= j < y && 0 <= x < l0 ==> is_hex_digit(#[trigger] lines@[j]@[x]),
                spec_first_nonhex(lines@, 0) == spec_first_nonhex(lines@, y as int),
            decreases rows - y,
        {
            let mut x: usize = 0;
            while x < l0
                invariant
                    rows == lines@.len(),
                    y < rows,
                    x <= l0,
                    lens_ok(lines@),
                    size_ok(lines@),
                    l0 == lines@[0]@.len(),
                    forall|j: int, x2: int|
                        0 <= j < y && 0 <= x2 < l0 ==> is_hex_digit(#[trigger] lines@[j]@[x2]),
                    forall|x2: int| 0 <= x2 < x ==> is_hex_digit(#[trigger] lines@[y as int]@[x2]),
                    spec_first_nonhex(lines@, 0) == spec_first_nonhex(lines@, y as int),
                    spec_row_first_nonhex(lines@[y as int]@, 0) == spec_row_first_nonhex(
                        lines@[y as int]@,
                        x as int,
                    ),
                decreases l0 - x,
            {
                let c = lines[y].as_str().get_char(x);
                let code = c as u32;
                if !(code >= 48 && code <= 57 || code >= 97 && code <= 102 || code >= 65 && code
                    <= 70) {
                    proof {
                        assert(spec_row_first_nonhex(lines@[y as int]@, x as int) == Some(c));
                        assert(spec_first_nonhex(lines@, y as int) == Some(c));
                    }
                    return Err(DataParseError::UnknownSymbol(c));
                }
                x = x + 1;
            }
            y = y + 1;
        }
        let w: i32 = (l0 as i32) * 4;
        let h: i32 = rows as i32;
        let mut g = Grid::new(Coordinates { x: w, y: h });
        proof {
            assert(g.spec_cells().len() == w * h);
        }
        let mut y: usize = 0;
        while y < rows
            invariant
                rows == lines@.len(),
                y <= rows,
                lens_ok(lines@),
                size_ok(lines@),
                all_hex(lines@),
                l0 == lines@[0]@.len(),
                w == 4 * l0,
                h == rows,
                g.wf(),
                g.spec_size() == (Coordinates { x: w, y: h }),
                forall|i: int|
                    0 <= i < y * w ==> #[trigger] g.spec_cells()[i] == decoded_cell(
                        lines@,
                        w as int,
                        i,
                    ),
                forall|i: int| y * w <= i < g.spec_cells().len() ==> #[trigger] g.spec_cells()[i]
                    is None,
            decreases rows - y,
        {
            let mut xc: usize = 0;
            while xc < l0
                invariant
                    rows == lines@.len(),
                    y < rows,
                    xc <= l0,
                    lens_ok(lines@),
                    size_ok(lines@),
                    all_hex(lines@),
                    l0 == lines@[0]@.len(),
                    w == 4 * l0,
                    h == rows,
                    g.wf(),
                    g.spec_size() == (Coordinates { x: w, y: h }),
                    forall|i: int|
                        0 <= i < y * w + 4 * xc ==> #[trigger] g.spec_cells()[i] == decoded_cell(
                            lines@,
                            w as int,
                            i,
                        ),
                    forall|i: int|
                        y * w + 4 * xc <= i < g.spec_cells().len() ==> #[trigger] g.spec_cells()[i]
                            is None,
                decreases l0 - xc,
            {
                let c = lines[y].as_str().get_char(xc);
                let code = c as u32;
                let v: u32 = if code >= 48 && code <= 57 {
                    code - 48
                } else if code >= 97 && code <= 102 {
                    10 + code - 97
                } else {
                    10 + code - 65
                };
                proof {
                    assert(v == hex_val(lines@[y as int]@[xc as int]));
                }
                let x0: i32 = (xc as i32) * 4;
                let ghost g0 = g;
                let ghost yi = y as int;
                let ghost wi = w as int;
                let ghost base = yi * wi + 4 * (xc as int);
                proof {
                    assert(4 * (xc as int) + 4 <= wi);
                    assert(g.spec_cells().len() == (rows as int) * wi);
                    assert(base + 4 <= (rows as int) * wi) by (nonlinear_arith)
                        requires
                            base == yi * wi + 4 * (xc as int),
                            4 * (xc as int) + 4 <= wi,
                            0 <= 4 * (xc as int),
                            0 < wi,
                            0 <= yi,
                            yi + 1 <= rows as int,
                    {}
                }
                if v & 1 != 0 {
                    proof {
                        crate::grid::lemma_index_identity(g, x0 as int, yi);
                    }
                    g.init(x0, y as i32);
                }
                if v & 2 != 0 {
                    proof {
                        crate::grid::lemma_index_identity(g, x0 + 1, yi);
                    }
                    g.init(x0 + 1, y as i32);
                }
                if v & 4 != 0 {
                    proof {
                        crate::grid::lemma_index_identity(g, x0 + 2, yi);
                    }
                    g.init(x0 + 2, y as i32);
                }
                if v & 8 != 0 {
                    proof {
                        crate::grid::lemma_index_identity(g, x0 + 3, yi);
                    }
                    g.init(x0 + 3, y as i32);
                }
                proof {
                    assert forall|i: int| 0 <= i < base + 4 implies #[trigger] g.spec_cells()[i]
                        == decoded_cell(lines@, wi, i) by {
                        if i < base {
                            assert(g.spec_cells()[i] == g0.spec_cells()[i]);
                        } else {
                            let z = i - base;
                            crate::grid::lemma_flat_index(wi, yi, 4 * (xc as int) + z);
                            crate::grid::lemma_flat_index(4, xc as int, z);
                            assert((i % wi) / 4 == xc as int && (i % wi) % 4 == z) by {
                                assert(i % wi == 4 * (xc as int) + z);
                                assert((4 * (xc as int) + z) == (xc as int) * 4 + z);
                            }
                            assert(g.spec_cells()[i] == (if nibble_bit(v, z) {
                                Some(fresh_cell())
                            } else {
                                None::<Cell>
                            }));
                        }
                    }
                    assert forall|i: int|
                        base + 4 <= i < g.spec_cells().len() implies #[trigger] g.spec_cells()[i]
                        is None by {
                        assert(g.spec_cells()[i] == g0.spec_cells()[i]);
                    }
                    assert(base + 4 == yi * wi + 4 * ((xc + 1) as int));
                }
                xc = xc + 1;
            }
            y = y + 1;
            proof {
                assert((y as int - 1) * (w as int) + 4 * (l0 as int) == (y as int) * (w as int))
                    by (nonlinear_arith)
                    requires
                        w as int == 4 * (l0 as int),
                {}
            }
        }
        proof {
            assert((rows as int) * (w as int) == g.spec_cells().len());
        }
        Ok(g)
    }

    /// Pack a board (whose width is a multiple of four) into hex lines.
    pub fn unparse(grid: &Grid) -> (r: Data)
        requires
            grid.wf(),
            grid.spec_size().x % 4 == 0,
        ensures
            match r {
                Data::Grid(lines) => spec_encoded_lines(*grid, lines@),
                Data::Random { .. } => false,
            },
    {
        let size = grid.size();
        let w = size.x;
        let h = size.y;
        let l: usize = (w as usize) / 4;
        let mut lines: Vec<String> = Vec::new();
        let mut y: usize = 0;
        proof {
            assert(4 * (w as int / 4) == w as int) by (nonlinear_arith)
                requires
                    w as int % 4 == 0,
                    0 < w as int,
            {}
        }
        while y < h as usize
            invariant
                grid.wf(),
                w == grid.spec_size().x,
                h == grid.spec_size().y,
                l == w as int / 4,
                4 * l == w as int,
                y <= h as usize,
                lines@.len() == y,
                forall|j: int| 0 <= j < y ==> (#[trigger] lines@[j]@).len() == l,
                forall|j: int, xc: int|
                    0 <= j < y && 0 <= xc < l ==> (#[trigger] lines@[j]@[xc]) == hex_char(
                        encoded_nibble(*grid, xc, j),
                    ),
            decreases h - y,
        {
            let mut s = String::new();
            let mut xc: usize = 0;
            while xc < l
                invariant
                    grid.wf(),
                    w == grid.spec_size().x,
                    h == grid.spec_size().y,
                    l == w as int / 4,
                    4 * l == w as int,
                    y < h as usize,
                    xc <= l,
                    s@.len() == xc,
                    forall|k: int|
                        0 <= k < xc ==> (#[trigger] s@[k]) == hex_char(
                            encoded_nibble(*grid, k, y as int),
                        ),
                decreases l - xc,
            {
                let x0: i32 = (xc as i32) * 4;
                proof {
                    assert(4 * (xc as int) + 3 < w as int);
                    crate::grid::lemma_index_identity(*grid, x0 as int, y as int);
                    crate::grid::lemma_index_identity(*grid, x0 as int + 1, y as int);
                    crate::grid::lemma_index_identity(*grid, x0 as int + 2, y as int);
                    crate::grid::lemma_index_identity(*grid, x0 as int + 3, y as int);
                }
                let mut v: u32 = 0;
                if grid.get(x0, y as i32).is_some() {
                    v = v + 1;
                }
                if grid.get(x0 + 1, y as i32).is_some() {
                    v = v + 2;
                }
                if grid.get(x0 + 2, y as i32).is_some() {
                    v = v + 4;
                }
                if grid.get(x0 + 3, y as i32).is_some() {
                    v = v + 8;
                }
                proof {
                    assert(v == encoded_nibble(*grid, xc as int, y as int));
                }
                let c: char = if v >= 10 {
                    ((87 + v) as u8) as char
                } else {
                    ((48 + v) as u8) as char
                };
                push_char(&mut s, c);
                xc = xc + 1;
            }
            lines.push(s);
            y = y + 1;
        }
        Data::Grid(lines)
    }
}

/// `a` and `b` hold the same board description, compared by content.
pub open spec fn data_eq(a: Data, b: Data) -> bool {
    match (a, b) {
        (
            Data::Random { width: wa, height: ha, alive_ratio: ra },
            Data::Random { width: wb, height: hb, alive_ratio: rb },
        ) => wa == wb && ha == hb && ra == rb,
        (Data::Grid(la), Data::Grid(lb)) => la@.len() == lb@.len() && forall|i: int|
            0 <= i < la@.len() ==> (#[trigger] la@[i])@ == lb@[i]@,
        _ => false,
    }
}

impl Clone for Data {
    fn clone(&self) -> (r: Self)
        ensures
            data_eq(*self, r),
    {
        match *self {
            Data::Random { width, height, alive_ratio } => Data::Random {
                width,
                height,
                alive_ratio,
            },
            Data::Grid(ref lines) => {
                let mut copy: Vec<String> = Vec::new();
                let n = lines.len();
                let mut i: usize = 0;
                while i < n
                    invariant
                        n == lines@.len(),
                        i <= n,
                        copy@.len() == i,
                        forall|j: int| 0 <= j < i ==> (#[trigger] copy@[j])@ == lines@[j]@,
                    decreases n - i,
                {
                    copy.push(lines[i].clone());
                    i = i + 1;
                }
                Data::Grid(copy)
            },
        }
    }
}

/// Content equality of board data is symmetric.
pub proof fn lemma_data_eq_sym(a: Data, b: Data)
    requires
        data_eq(a, b),
    ensures
        data_eq(b, a),
{
    match (a, b) {
        (Data::Grid(la), Data::Grid(lb)) => {
            assert forall|i: int| 0 <= i < lb@.len() implies (#[trigger] lb@[i])@ == la@[i]@ by {
                assert(la@[i]@ == lb@[i]@);
            }
        },
        _ => {},
    }
}

/// Content equality of board data is transitive.
pub proof fn lemma_data_eq_trans(a: Data, b: Data, c: Data)
    requires
        data_eq(a, b),
        data_eq(b, c),
    ensures
        data_eq(a, c),
{
    match (a, c) {
        (Data::Grid(la), Data::Grid(lc)) => {
            match b {
                Data::Grid(lb) => {
                    assert forall|i: int| 0 <= i < la@.len() implies (#[trigger] la@[i])@
                        == lc@[i]@ by {
                        assert(la@[i]@ == lb@[i]@);
                        assert(lb@[i]@ == lc@[i]@);
                    }
                },
                Data::Random { .. } => {},
            }
        },
        _ => {},
    }
}

/// Round trip of the packed board format: decoding lines of lower-case
/// hex digits and packing the resulting board again reproduces the lines
/// character for character.
pub proof fn lemma_packed_round_trip(lines: Seq<String>, g: Grid, lines2: Seq<String>)
    requires
        lens_ok(lines),
        all_lower_hex(lines),
        g.wf(),
        spec_decoded_grid(lines, g),
        spec_encoded_lines(g, lines2),
    ensures
        lines2.len() == lines.len(),
        forall|y: int| 0 <= y < lines.len() ==> (#[trigger] lines2[y])@ =~= lines[y]@,
{
    let l0 = lines[0]@.len() as int;
    let w = g.spec_size().x as int;
    assert(w == 4 * l0);
    assert(w / 4 == l0) by (nonlinear_arith)
        requires
            w == 4 * l0,
            0 < l0,
    {}
    assert forall|y: int| 0 <= y < lines.len() implies (#[trigger] lines2[y])@ =~= lines[y]@ by {
        assert(lines[y]@.len() == l0);
        assert(lines2[y]@.len() == l0);
        assert forall|xc: int| 0 <= xc < l0 implies lines2[y]@[xc] == lines[y]@[xc] by {
            let c = lines[y]@[xc];
            let v = hex_val(c);
            assert(is_lower_hex_digit(c));
            assert(v < 16);
            assert forall|z: int| 0 <= z < 4 implies g.spec_cells()[y * w + 4 * xc + z]
                == decoded_cell(lines, w, y * w + 4 * xc + z) && (decoded_cell(
                lines,
                w,
                y * w + 4 * xc + z,
            ) is Some <==> nibble_bit(v, z)) by {
                assert(0 <= 4 * xc + z < w);
                crate::grid::lemma_flat_index(w, y, 4 * xc + z);
                crate::grid::lemma_flat_index(4, xc, z);
                assert((y * w + 4 * xc + z) % w == 4 * xc + z);
                assert((4 * xc + z) / 4 == xc && (4 * xc + z) % 4 == z) by {
                    assert(4 * xc + z == xc * 4 + z);
                }
                assert(0 <= y * w + 4 * xc + z < g.spec_cells().len()) by (nonlinear_arith)
                    requires
                        0 <= y,
                        y + 1 <= g.spec_size().y as int,
                        0 <= 4 * xc + z < w,
                        w == g.spec_size().x as int,
                        g.spec_cells().len() == g.spec_size().x * g.spec_size().y,
                {}
            }
            let nib = encoded_nibble(g, xc, y);
            assert(nib == ((if nibble_bit(v, 0) {
                1u32
            } else {
                0u32
            }) + (if nibble_bit(v, 1) {
                2u32
            } else {
                0u32
            }) + (if nibble_bit(v, 2) {
                4u32
            } else {
                0u32
            }) + (if nibble_bit(v, 3) {
                8u32
            } else {
                0u32
            })) as u32);
            assert(v < 16 ==> ((if v & 1 != 0 {
                1u32
            } else {
                0u32
            }) + (if v & 2 != 0 {
                2u32
            } else {
                0u32
            }) + (if v & 4 != 0 {
                4u32
            } else {
                0u32
            }) + (if v & 8 != 0 {
                8u32
            } else {
                0u32
            })) as u32 == v) by (bit_vector);
            assert(nib == v);
            assert(hex_char(v) == c);
        }
    }
}

} // verus!
