//! The flat-top hexagonal board: layout, point lookup and radius claims.
use vstd::prelude::*;
use vstd::arithmetic::div_mod::{
    lemma_div_is_ordered, lemma_div_is_ordered_by_denominator, lemma_fundamental_div_mod,
    lemma_div_multiples_vanish_fancy,
};
use crate::fixed::{div_trunc_wide, is_isqrt, isqrt, isqrt_i64, lemma_scaled_component, trunc_div};

verus! {

/// Fixed-point units in one board unit (one pixel).
pub const UNIT: i64 = 1000;

/// Largest board width or height, in fixed-point units.
pub const MAX_DIM: i64 = 100_000_000;

/// Largest number of columns or rows a grid can have.
pub const MAX_SIDE: i64 = 100_001;

/// Largest absolute coordinate accepted for a point queried against the grid.
pub const COORD_LIM: i64 = 1_000_000_000;

/// Largest coordinate of a cell center.
pub const CELL_COORD_MAX: i64 = 400_000_000;

/// The fixed-point value of a unit direction component.
pub const DIR_ONE: i64 = 4096;

/// One of the two teams.
#[derive(Clone, Copy, Debug, PartialEq, Eq, Structural)]
pub enum Team {
    White,
    Black,
}

/// The paint of a hex.
#[derive(Clone, Copy, Debug, PartialEq, Eq, Structural)]
pub enum HexColor {
    White,
    Black,
}

/// A hex of the board: its address, its center and its paint.
#[derive(Clone, Copy, Debug)]
pub struct Cell {
    pub col: usize,
    pub row: usize,
    pub cx: i64,
    pub cy: i64,
    pub color: HexColor,
}

/// A flat-top hex tessellation; cells are stored column-major (`col * rows + row`).
pub struct Grid {
    pub cells: Vec<Cell>,
    pub cols: usize,
    pub rows: usize,
    /// Circumradius of a hex.
    pub r: i64,
    /// Vertical step between two hexes of a column.
    pub hex_h: i64,
}

/// The color a team paints.
pub open spec fn team_color(t: Team) -> HexColor {
    match t {
        Team::White => HexColor::White,
        Team::Black => HexColor::Black,
    }
}

/// Horizontal pitch between columns.
pub open spec fn step_x(r: int) -> int {
    3 * r / 2
}

/// Number of `k >= 0` with `first + k * step <= limit`.
pub open spec fn fit_count(first: int, step: int, limit: int) -> int {
    if first > limit {
        0
    } else {
        (limit - first) / step + 1
    }
}

/// Column count for a board of width `w` and hexes of circumradius `r`.
pub open spec fn spec_cols(w: int, r: int) -> int {
    let n = fit_count(2 * r, step_x(r), w - UNIT);
    if n < 1 {
        1
    } else {
        n
    }
}

/// Row count for a board of height `h` and vertical step `hh`: the smaller of the counts
/// for even and odd columns, at least one.
pub open spec fn spec_rows(h: int, hh: int) -> int {
    let even = fit_count(2 * (hh / 2), hh, h - UNIT);
    let odd = fit_count(3 * (hh / 2), hh, h - UNIT);
    let n = if even < odd {
        even
    } else {
        odd
    };
    if n < 1 {
        1
    } else {
        n
    }
}

/// Horizontal center of column `c`.
pub open spec fn center_x(r: int, c: int) -> int {
    r + c * step_x(r)
}

/// Vertical offset of column `c`: odd columns sit half a step lower.
pub open spec fn column_offset(hh: int, c: int) -> int {
    if c % 2 == 1 {
        hh / 2
    } else {
        0
    }
}

/// Vertical center of row `k` in column `c`.
pub open spec fn center_y(hh: int, c: int, k: int) -> int {
    hh / 2 + column_offset(hh, c) + k * hh
}

/// Paint of a freshly built cell: White left of the midline, Black from it on.
pub open spec fn initial_color(w: int, cx: int) -> HexColor {
    if 2 * cx < w {
        HexColor::White
    } else {
        HexColor::Black
    }
}

/// Cell `cell` is the hex at column `c`, row `k`.
pub open spec fn cell_placed(cell: Cell, c: int, k: int, r: int, hh: int) -> bool {
    &&& cell.col == c
    &&& cell.row == k
    &&& cell.cx == center_x(r, c)
    &&& cell.cy == center_y(hh, c, k)
}

/// Nearest column to `x` (a point halfway between two columns goes to the one further from
/// column zero), before the bounds check.
pub open spec fn nearest_col(r: int, x: int) -> int {
    let a = x - r + step_x(r) / 2;
    if a < 0 || (a == 0 && step_x(r) % 2 == 0) {
        -1
    } else {
        a / step_x(r)
    }
}

/// Nearest row to `y` within column `c` (a point halfway between two rows goes to the one
/// further from row zero), before the bounds check.
pub open spec fn nearest_row(hh: int, c: int, y: int) -> int {
    let b = y - hh / 2 - column_offset(hh, c) + hh / 2;
    if b < 0 || (b == 0 && hh % 2 == 0) {
        -1
    } else {
        b / hh
    }
}

impl Grid {
    pub open spec fn wf(&self) -> bool {
        &&& UNIT <= self.r <= MAX_DIM
        &&& self.r % 2 == 0
        &&& is_isqrt(3 * self.r * self.r, self.hex_h as int)
        &&& 1 <= self.cols <= MAX_SIDE
        &&& 1 <= self.rows <= MAX_SIDE
        &&& self.cells@.len() == self.cols * self.rows
        &&& forall|c: int, k: int|
            0 <= c < self.cols && 0 <= k < self.rows ==> #[trigger] cell_placed(
                self.cells@[c * self.rows + k],
                c,
                k,
                self.r as int,
                self.hex_h as int,
            )
        &&& forall|i: int|
            0 <= i < self.cells@.len() ==> 0 <= #[trigger] self.cells@[i].cx <= CELL_COORD_MAX
                && 0 <= self.cells@[i].cy <= CELL_COORD_MAX
    }

    /// Where the point `(x, y)` falls: the index of the nearest hex, if it is on the grid.
    pub open spec fn locate_spec(&self, x: int, y: int) -> Option<int> {
        let c = nearest_col(self.r as int, x);
        if c < 0 || c >= self.cols {
            None
        } else {
            let k = nearest_row(self.hex_h as int, c, y);
            if k < 0 || k >= self.rows {
                None
            } else {
                Some(c * self.rows + k)
            }
        }
    }
}

proof fn lemma_hex_h_bounds(r: int, hh: int)
    requires
        r >= 1,
        is_isqrt(3 * r * r, hh),
    ensures
        r <= hh < 2 * r,
{
    assert(r <= hh) by (nonlinear_arith)
        requires
            r >= 1,
            hh >= 0,
            3 * r * r < (hh + 1) * (hh + 1),
    ;
    assert(hh < 2 * r) by (nonlinear_arith)
        requires
            r >= 1,
            hh >= 0,
            hh * hh <= 3 * r * r,
    ;
}

proof fn lemma_fit_count_bounds(first: int, step: int, limit: int)
    requires
        0 <= first,
        UNIT <= step,
        limit <= MAX_DIM,
    ensures
        fit_count(first, step, limit) <= MAX_SIDE,
        fit_count(first, step, limit) >= 1 ==> (fit_count(first, step, limit) - 1) * step
            <= limit - first,
{
    if first <= limit {
        lemma_div_is_ordered(limit - first, MAX_DIM as int, step);
        lemma_div_is_ordered_by_denominator(MAX_DIM as int, UNIT as int, step);
        assert(MAX_DIM / UNIT == 100_000);
        lemma_fundamental_div_mod(limit - first, step);
        assert(step * ((limit - first) / step) <= limit - first);
        assert(((limit - first) / step) * step == step * ((limit - first) / step)) by (nonlinear_arith);
    }
}

proof fn lemma_index_lt(c: int, k: int, col: int, row: int, rows: int)
    requires
        0 <= c,
        0 <= k < rows,
        0 <= row,
        c < col,
    ensures
        c * rows + k < col * rows + row,
        0 <= c * rows + k,
{
    assert(c * rows + k < col * rows) by (nonlinear_arith)
        requires
            c < col,
            k < rows,
            0 <= c,
            0 <= k,
    ;
    assert(0 <= c * rows) by (nonlinear_arith)
        requires
            0 <= c,
            0 <= rows,
    ;
}

proof fn lemma_index_range(c: int, k: int, cols: int, rows: int)
    requires
        0 <= c < cols,
        0 <= k < rows,
    ensures
        0 <= c * rows + k < cols * rows,
{
    lemma_index_lt(c, k, cols, 0, rows);
}

fn fit_count_exec(first: i64, step: i64, limit: i64) -> (n: i64)
    requires
        0 <= first <= 3 * MAX_DIM,
        UNIT <= step <= 3 * MAX_DIM,
        -MAX_DIM <= limit <= MAX_DIM,
    ensures
        n == fit_count(first as int, step as int, limit as int),
        0 <= n <= MAX_SIDE,
{
    proof {
        lemma_fit_count_bounds(first as int, step as int, limit as int);
    }
    if first > limit {
        0
    } else {
        (((limit - first) as u64) / (step as u64)) as i64 + 1
    }
}

proof fn lemma_center_bounds(r: int, hh: int, w: int, h: int, cols: int, rows: int, c: int, k: int)
    requires
        UNIT <= r <= MAX_DIM,
        1 <= w <= MAX_DIM,
        1 <= h <= MAX_DIM,
        is_isqrt(3 * r * r, hh),
        cols == spec_cols(w, r),
        rows == spec_rows(h, hh),
        0 <= c < cols,
        0 <= k < rows,
    ensures
        0 <= center_x(r, c) <= CELL_COORD_MAX,
        0 <= center_y(hh, c, k) <= CELL_COORD_MAX,
{
    lemma_hex_h_bounds(r, hh);
    let step = step_x(r);
    lemma_fit_count_bounds(2 * r, step, w - UNIT);
    lemma_fit_count_bounds(2 * (hh / 2), hh, h - UNIT);
    lemma_fit_count_bounds(3 * (hh / 2), hh, h - UNIT);
    assert(c * step <= MAX_DIM) by (nonlinear_arith)
        requires
            0 <= c <= cols - 1,
            step >= 0,
            cols == 1 || (cols - 1) * step <= MAX_DIM,
    ;
    assert(0 <= c * step) by (nonlinear_arith)
        requires
            0 <= c,
            step >= 0,
    ;
    assert(k * hh <= MAX_DIM) by (nonlinear_arith)
        requires
            0 <= k <= rows - 1,
            hh >= 0,
            rows == 1 || (rows - 1) * hh <= MAX_DIM,
    ;
    assert(0 <= k * hh) by (nonlinear_arith)
        requires
            0 <= k,
            hh >= 0,
    ;
}

impl Grid {
    /// Lays out the hexes of circumradius `r` over a `w` by `h` board, painted by the midline.
    /// `r` is even, so that the column pitch `3r/2` is exact.
    pub fn new(w: i64, h: i64, r: i64) -> (g: Grid)
        requires
            UNIT <= r <= MAX_DIM,
            r % 2 == 0,
            1 <= w <= MAX_DIM,
            1 <= h <= MAX_DIM,
        ensures
            g.wf(),
            g.r == r,
            is_isqrt(3 * r * r, g.hex_h as int),
            g.cols == spec_cols(w as int, r as int),
            g.rows == spec_rows(h as int, g.hex_h as int),
            forall|i: int|
                0 <= i < g.cells@.len() ==> #[trigger] g.cells@[i].color == initial_color(
                    w as int,
                    g.cells@[i].cx as int,
                ),
    {
        assert(3 * r * r <= 3 * MAX_DIM * MAX_DIM) by (nonlinear_arith)
            requires
                0 <= r <= MAX_DIM,
        ;
        let hh = isqrt_i64(3 * r * r);
        proof {
            lemma_hex_h_bounds(r as int, hh as int);
        }
        let step = 3 * r / 2;
        let ncols = fit_count_exec(2 * r, step, w - UNIT);
        let cols: i64 = if ncols < 1 {
            1
        } else {
            ncols
        };
        let half = hh / 2;
        let even = fit_count_exec(2 * half, hh, h - UNIT);
        let odd = fit_count_exec(3 * half, hh, h - UNIT);
        let m = if even < odd {
            even
        } else {
            odd
        };
        let rows: i64 = if m < 1 {
            1
        } else {
            m
        };
        let cols = cols as usize;
        let rows = rows as usize;
        let mut cells: Vec<Cell> = Vec::new();
        let mut col: usize = 0;
        while col < cols
            invariant
                0 <= col <= cols,
                1 <= cols <= MAX_SIDE,
                1 <= rows <= MAX_SIDE,
                cols == spec_cols(w as int, r as int),
                rows == spec_rows(h as int, hh as int),
                UNIT <= r <= MAX_DIM,
                1 <= w <= MAX_DIM,
                1 <= h <= MAX_DIM,
                is_isqrt(3 * r * r, hh as int),
                step == step_x(r as int),
                half == hh / 2,
                cells@.len() == col * rows,
                forall|c: int, k: int|
                    0 <= c < col && 0 <= k < rows ==> #[trigger] cell_placed(
                        cells@[c * rows + k],
                        c,
                        k,
                        r as int,
                        hh as int,
                    ),
                forall|i: int|
                    0 <= i < cells@.len() ==> 0 <= #[trigger] cells@[i].cx <= CELL_COORD_MAX && 0
                        <= cells@[i].cy <= CELL_COORD_MAX && cells@[i].color == initial_color(
                        w as int,
                        cells@[i].cx as int,
                    ),
            decreases cols - col,
        {
            proof {
                lemma_center_bounds(r as int, hh as int, w as int, h as int, cols as int, rows as int, col as int, 0);
            }
            let cx = r + (col as i64) * step;
            let off = if col % 2 == 1 {
                half
            } else {
                0
            };
            let mut row: usize = 0;
            while row < rows
                invariant
                    0 <= col < cols,
                    0 <= row <= rows,
                    1 <= cols <= MAX_SIDE,
                    1 <= rows <= MAX_SIDE,
                    cols == spec_cols(w as int, r as int),
                    rows == spec_rows(h as int, hh as int),
                    UNIT <= r <= MAX_DIM,
                    1 <= w <= MAX_DIM,
                    1 <= h <= MAX_DIM,
                    is_isqrt(3 * r * r, hh as int),
                    step == step_x(r as int),
                    half == hh / 2,
                    cx == center_x(r as int, col as int),
                    off == column_offset(hh as int, col as int),
                    cells@.len() == col * rows + row,
                    forall|c: int, k: int|
                        (0 <= c < col && 0 <= k < rows) || (c == col && 0 <= k < row)
                            ==> #[trigger] cell_placed(
                            cells@[c * rows + k],
                            c,
                            k,
                            r as int,
                            hh as int,
                        ),
                    forall|i: int|
                        0 <= i < cells@.len() ==> 0 <= #[trigger] cells@[i].cx <= CELL_COORD_MAX
                            && 0 <= cells@[i].cy <= CELL_COORD_MAX && cells@[i].color
                            == initial_color(w as int, cells@[i].cx as int),
                decreases rows - row,
            {
                proof {
                    lemma_center_bounds(r as int, hh as int, w as int, h as int, cols as int, rows as int, col as int, row as int);
                    assert(center_y(hh as int, col as int, row as int) == half + off + row * hh);
                }
                let cy = half + off + (row as i64) * hh;
                let color = if 2 * cx < w {
                    HexColor::White
                } else {
                    HexColor::Black
                };
                let ghost old_cells = cells@;
                cells.push(Cell { col, row, cx, cy, color });
                proof {
                    assert forall|c: int, k: int|
                        (0 <= c < col && 0 <= k < rows) || (c == col && 0 <= k < row + 1)
                            implies #[trigger] cell_placed(
                            cells@[c * rows + k],
                            c,
                            k,
                            r as int,
                            hh as int,
                        ) by {
                        if c < col {
                            lemma_index_lt(c, k, col as int, row as int, rows as int);
                            assert(cells@[c * rows + k] == old_cells[c * rows + k]);
                        } else if k < row {
                            assert(cells@[c * rows + k] == old_cells[c * rows + k]);
                        } else {
                            assert(c * rows + k == old_cells.len());
                        }
                    }
                }
                row += 1;
            }
            assert((col + 1) * rows == col * rows + rows) by (nonlinear_arith);
            col += 1;
        }
        Grid { cells, cols, rows, r, hex_h: hh }
    }
}

impl Grid {
    /// The index of the hex nearest to `(x, y)`, or `None` off the grid.
    pub fn center_to_index(&self, x: i64, y: i64) -> (res: Option<usize>)
        requires
            self.wf(),
            -COORD_LIM <= x <= COORD_LIM,
            -COORD_LIM <= y <= COORD_LIM,
        ensures
            match res {
                Some(i) => self.locate_spec(x as int, y as int) == Some(i as int) && i
                    < self.cells@.len(),
                None => self.locate_spec(x as int, y as int) is None,
            },
    {
        proof {
            lemma_hex_h_bounds(self.r as int, self.hex_h as int);
        }
        let step = 3 * self.r / 2;
        let hh = self.hex_h;
        let a = x - self.r + step / 2;
        if a < 0 || (a == 0 && step % 2 == 0) {
            return None;
        }
        let col = (a as u64) / (step as u64);
        if col >= self.cols as u64 {
            return None;
        }
        let col = col as usize;
        let off = if col % 2 == 1 {
            hh / 2
        } else {
            0
        };
        let b = y - hh / 2 - off + hh / 2;
        if b < 0 || (b == 0 && hh % 2 == 0) {
            return None;
        }
        let row = (b as u64) / (hh as u64);
        if row >= self.rows as u64 {
            return None;
        }
        let row = row as usize;
        let total = self.cells.len();
        proof {
            lemma_index_range(col as int, row as int, self.cols as int, self.rows as int);
        }
        assert(col * self.rows + row < total);
        Some(col * self.rows + row)
    }

    /// Paints the hex under `(x, y)` in the team's color; returns its old and new paint if
    /// that changed it.
    pub fn flip_at(&mut self, x: i64, y: i64, team: Team) -> (res: Option<(HexColor, HexColor)>)
        requires
            old(self).wf(),
            -COORD_LIM <= x <= COORD_LIM,
            -COORD_LIM <= y <= COORD_LIM,
        ensures
            final(self).wf(),
            final(self).cols == old(self).cols,
            final(self).rows == old(self).rows,
            final(self).r == old(self).r,
            final(self).hex_h == old(self).hex_h,
            match old(self).locate_spec(x as int, y as int) {
                Some(i) => if old(self).cells@[i].color != team_color(team) {
                    &&& res == Some((old(self).cells@[i].color, team_color(team)))
                    &&& final(self).cells@ == old(self).cells@.update(
                        i,
                        Cell { color: team_color(team), ..old(self).cells@[i] },
                    )
                } else {
                    res is None && final(self).cells@ == old(self).cells@
                },
                None => res is None && final(self).cells@ == old(self).cells@,
            },
    {
        match self.center_to_index(x, y) {
            Some(i) => {
                let target = match team {
                    Team::Black => HexColor::Black,
                    Team::White => HexColor::White,
                };
                let c = self.cells[i];
                if c.color != target {
                    let ghost before = self.cells@;
                    self.cells.set(i, Cell { color: target, ..c });
                    proof {
                        assert forall|cc: int, k: int|
                            0 <= cc < self.cols && 0 <= k < self.rows implies #[trigger] cell_placed(
                                self.cells@[cc * self.rows + k],
                                cc,
                                k,
                                self.r as int,
                                self.hex_h as int,
                            ) by {
                            lemma_index_range(cc, k, self.cols as int, self.rows as int);
                            assert(cell_placed(before[cc * self.rows + k], cc, k, self.r as int, self.hex_h as int));
                        }
                        assert forall|j: int| 0 <= j < self.cells@.len() implies 0
                            <= #[trigger] self.cells@[j].cx <= CELL_COORD_MAX && 0
                            <= self.cells@[j].cy <= CELL_COORD_MAX by {
                            assert(0 <= before[j].cx <= CELL_COORD_MAX);
                        }
                    }
                    Some((c.color, target))
                } else {
                    None
                }
            },
            None => None,
        }
    }
}

/// The hex at column `c`, row `k` is found again from its own center: point lookup inverts
/// the layout.
pub proof fn lemma_locate_center(g: &Grid, c: int, k: int)
    requires
        g.wf(),
        0 <= c < g.cols,
        0 <= k < g.rows,
    ensures
        g.locate_spec(center_x(g.r as int, c), center_y(g.hex_h as int, c, k)) == Some(
            c * g.rows + k,
        ),
        g.cells@[c * g.rows + k].col == c,
        g.cells@[c * g.rows + k].row == k,
{
    let r = g.r as int;
    let hh = g.hex_h as int;
    lemma_hex_h_bounds(r, hh);
    let step = step_x(r);
    assert(c * step == step * c) by (nonlinear_arith);
    assert(k * hh == hh * k) by (nonlinear_arith);
    lemma_div_multiples_vanish_fancy(c, step / 2, step);
    assert(nearest_col(r, center_x(r, c)) == c);
    lemma_div_multiples_vanish_fancy(k, hh / 2, hh);
    assert(nearest_row(hh, c, center_y(hh, c, k)) == k);
    assert(cell_placed(g.cells@[c * g.rows + k], c, k, r, hh));
}

/// The floor of the square root of `n`.
pub open spec fn sqrt_floor(n: int) -> int {
    choose|r: int| is_isqrt(n, r)
}

/// The center of `cell` lies within `radius` of `(x, y)` (boundary included).
pub open spec fn in_reach(cell: Cell, x: int, y: int, radius: int) -> bool {
    (cell.cx - x) * (cell.cx - x) + (cell.cy - y) * (cell.cy - y) <= radius * radius
}

/// A disc of team `team` at `(x, y)` recolors `cell`.
pub open spec fn claims(cell: Cell, x: int, y: int, radius: int, team: Team) -> bool {
    in_reach(cell, x, y, radius) && cell.color != team_color(team)
}

/// `cell` after a claim: painted in the team's color when in reach.
pub open spec fn painted(cell: Cell, x: int, y: int, radius: int, team: Team) -> Cell {
    if in_reach(cell, x, y, radius) {
        Cell { color: team_color(team), ..cell }
    } else {
        cell
    }
}

/// All of `cells` after a claim.
pub open spec fn painted_all(cells: Seq<Cell>, x: int, y: int, radius: int, team: Team) -> Seq<Cell> {
    Seq::new(cells.len(), |i: int| painted(cells[i], x, y, radius, team))
}

/// How many of `cells` a claim recolors.
pub open spec fn claim_count(cells: Seq<Cell>, x: int, y: int, radius: int, team: Team) -> nat
    decreases cells.len(),
{
    if cells.len() == 0 {
        0
    } else {
        claim_count(cells.drop_last(), x, y, radius, team) + if claims(
            cells.last(),
            x,
            y,
            radius,
            team,
        ) {
            1nat
        } else {
            0nat
        }
    }
}

/// The vector `(vx, vy)` scaled to length `DIR_ONE` (each component rounded toward zero),
/// or zero for the zero vector.
pub open spec fn unit_of(vx: int, vy: int) -> (int, int) {
    match direction_of(vx, vy) {
        Some(u) => u,
        None => (0, 0),
    }
}

/// The direction of `(vx, vy)` as a vector of length `DIR_ONE` (each component rounded
/// toward zero; the length is taken of the vector scaled up by `DIR_ONE`, for precision),
/// or `None` for the zero vector.
pub open spec fn direction_of(vx: int, vy: int) -> Option<(int, int)> {
    let ax = vx * DIR_ONE;
    let ay = vy * DIR_ONE;
    let len = sqrt_floor(ax * ax + ay * ay);
    if len > 0 {
        Some((trunc_div(ax * DIR_ONE, len), trunc_div(ay * DIR_ONE, len)))
    } else {
        None
    }
}

/// The sum, over the cells that a claim recolors, of the unit vectors from each cell's
/// center toward `(x, y)`.
pub open spec fn normal_sum(cells: Seq<Cell>, x: int, y: int, radius: int, team: Team) -> (int, int)
    decreases cells.len(),
{
    if cells.len() == 0 {
        (0, 0)
    } else {
        let prev = normal_sum(cells.drop_last(), x, y, radius, team);
        let c = cells.last();
        if claims(c, x, y, radius, team) {
            let u = unit_of(x - c.cx, y - c.cy);
            (prev.0 + u.0, prev.1 + u.1)
        } else {
            prev
        }
    }
}

/// The bounce normal of a summed direction: `None` for a zero sum.
pub open spec fn normal_of(sum: (int, int)) -> Option<(int, int)> {
    direction_of(sum.0, sum.1)
}

pub proof fn lemma_sqrt_floor(n: int, r: int)
    requires
        is_isqrt(n, r),
    ensures
        sqrt_floor(n) == r,
{
    let s = sqrt_floor(n);
    assert(is_isqrt(n, s));
    if s < r {
        assert((s + 1) * (s + 1) <= r * r) by (nonlinear_arith)
            requires
                0 <= s,
                s + 1 <= r,
        ;
    }
    if r < s {
        assert((r + 1) * (r + 1) <= s * s) by (nonlinear_arith)
            requires
                0 <= r,
                r + 1 <= s,
        ;
    }
}

proof fn lemma_unit_component(a: int, b: int, len: int)
    requires
        is_isqrt(a * a + b * b, len),
        len > 0,
    ensures
        -DIR_ONE <= trunc_div(a * DIR_ONE, len) <= DIR_ONE,
{
    lemma_scaled_component(a, b, len, DIR_ONE as int);
}

/// Largest component accepted by `direction`.
pub const DIRECTION_LIM: i64 = 100_000_000_000_000;

/// The direction of `(vx, vy)`, as `direction_of` states it.
pub fn direction(vx: i64, vy: i64) -> (res: Option<(i64, i64)>)
    requires
        -DIRECTION_LIM <= vx <= DIRECTION_LIM,
        -DIRECTION_LIM <= vy <= DIRECTION_LIM,
    ensures
        match res {
            Some(u) => direction_of(vx as int, vy as int) == Some((u.0 as int, u.1 as int)) && -DIR_ONE
                <= u.0 <= DIR_ONE && -DIR_ONE <= u.1 <= DIR_ONE,
            None => direction_of(vx as int, vy as int) is None,
        },
{
    let a = (vx as i128) * (DIR_ONE as i128);
    let b = (vy as i128) * (DIR_ONE as i128);
    let ghost lim: int = DIRECTION_LIM * DIR_ONE;
    assert(0 <= a * a <= lim * lim) by (nonlinear_arith)
        requires
            -lim <= a <= lim,
    ;
    assert(0 <= b * b <= lim * lim) by (nonlinear_arith)
        requires
            -lim <= b <= lim,
    ;
    let s = (a * a + b * b) as u128;
    let len = isqrt(s);
    proof {
        lemma_sqrt_floor(s as int, len as int);
        assert(len <= 2 * lim) by (nonlinear_arith)
            requires
                len * len <= s,
                s <= 2 * (lim * lim),
                len >= 0,
                lim > 0,
        ;
    }
    if len > 0 {
        let len = len as i128;
        proof {
            lemma_unit_component(a as int, b as int, len as int);
            assert(b * b + a * a == a * a + b * b);
            lemma_unit_component(b as int, a as int, len as int);
        }
        Some(
            (
                div_trunc_wide(a * (DIR_ONE as i128), len) as i64,
                div_trunc_wide(b * (DIR_ONE as i128), len) as i64,
            ),
        )
    } else {
        None
    }
}

/// `(vx, vy)` scaled to length `DIR_ONE`, or zero.
pub fn unit_vector(vx: i64, vy: i64) -> (u: (i64, i64))
    requires
        -DIRECTION_LIM <= vx <= DIRECTION_LIM,
        -DIRECTION_LIM <= vy <= DIRECTION_LIM,
    ensures
        u.0 == unit_of(vx as int, vy as int).0,
        u.1 == unit_of(vx as int, vy as int).1,
        -DIR_ONE <= u.0 <= DIR_ONE,
        -DIR_ONE <= u.1 <= DIR_ONE,
{
    match direction(vx, vy) {
        Some(u) => u,
        None => (0, 0),
    }
}

proof fn lemma_painted_drop_last(cells: Seq<Cell>, x: int, y: int, radius: int, team: Team)
    requires
        cells.len() > 0,
    ensures
        painted_all(cells, x, y, radius, team).drop_last() =~= painted_all(
            cells.drop_last(),
            x,
            y,
            radius,
            team,
        ),
        painted_all(cells, x, y, radius, team).last() == painted(cells.last(), x, y, radius, team),
{
}

/// Claiming twice in a row with the same arguments: the second claim recolors nothing,
/// so it wins no points and yields no bounce normal.
pub proof fn lemma_claim_idempotent(cells: Seq<Cell>, x: int, y: int, radius: int, team: Team)
    ensures
        claim_count(painted_all(cells, x, y, radius, team), x, y, radius, team) == 0,
        normal_sum(painted_all(cells, x, y, radius, team), x, y, radius, team) == (0int, 0int),
        normal_of(normal_sum(painted_all(cells, x, y, radius, team), x, y, radius, team)) is None,
        painted_all(painted_all(cells, x, y, radius, team), x, y, radius, team) == painted_all(
            cells,
            x,
            y,
            radius,
            team,
        ),
    decreases cells.len(),
{
    if cells.len() > 0 {
        lemma_painted_drop_last(cells, x, y, radius, team);
        lemma_claim_idempotent(cells.drop_last(), x, y, radius, team);
    }
    lemma_sqrt_floor(0, 0);
    assert(painted_all(painted_all(cells, x, y, radius, team), x, y, radius, team) =~= painted_all(
        cells,
        x,
        y,
        radius,
        team,
    ));
}

/// How many hexes differ in color between `a` and `b`, over the length of `a`.
pub open spec fn changed_count(a: Seq<Cell>, b: Seq<Cell>) -> nat
    decreases a.len(),
{
    if a.len() == 0 {
        0
    } else {
        changed_count(a.drop_last(), b) + if a.last().color != b[a.len() - 1].color {
            1nat
        } else {
            0nat
        }
    }
}

/// How many of `cells` lie within `radius` of `(x, y)`.
pub open spec fn reach_count(cells: Seq<Cell>, x: int, y: int, radius: int) -> nat
    decreases cells.len(),
{
    if cells.len() == 0 {
        0
    } else {
        reach_count(cells.drop_last(), x, y, radius) + if in_reach(cells.last(), x, y, radius) {
            1nat
        } else {
            0nat
        }
    }
}

proof fn lemma_changed_count_prefix(a: Seq<Cell>, b: Seq<Cell>, c: Seq<Cell>)
    requires
        a.len() <= b.len(),
        a.len() <= c.len(),
        forall|i: int| 0 <= i < a.len() ==> #[trigger] b[i] == c[i],
    ensures
        changed_count(a, b) == changed_count(a, c),
    decreases a.len(),
{
    if a.len() > 0 {
        lemma_changed_count_prefix(a.drop_last(), b, c);
    }
}

/// A claim wins exactly one point per hex whose color it changes.
pub proof fn lemma_claim_count_changed(cells: Seq<Cell>, x: int, y: int, radius: int, team: Team)
    ensures
        claim_count(cells, x, y, radius, team) == changed_count(
            cells,
            painted_all(cells, x, y, radius, team),
        ),
    decreases cells.len(),
{
    if cells.len() > 0 {
        let p = painted_all(cells, x, y, radius, team);
        let q = painted_all(cells.drop_last(), x, y, radius, team);
        lemma_claim_count_changed(cells.drop_last(), x, y, radius, team);
        lemma_changed_count_prefix(cells.drop_last(), p, q);
    }
}

/// Where every hex in reach has the other team's color, a claim wins one point per hex in
/// reach.
pub proof fn lemma_claim_count_all_enemy(cells: Seq<Cell>, x: int, y: int, radius: int, team: Team)
    requires
        forall|i: int|
            0 <= i < cells.len() && in_reach(#[trigger] cells[i], x, y, radius) ==> cells[i].color
                != team_color(team),
    ensures
        claim_count(cells, x, y, radius, team) == reach_count(cells, x, y, radius),
    decreases cells.len(),
{
    if cells.len() > 0 {
        let d = cells.drop_last();
        assert forall|i: int| 0 <= i < d.len() && in_reach(#[trigger] d[i], x, y, radius) implies d[i].color
            != team_color(team) by {
            assert(d[i] == cells[i]);
        }
        lemma_claim_count_all_enemy(d, x, y, radius, team);
        assert(cells.last() == cells[cells.len() - 1]);
    }
}

/// A claim wins at most one point per hex of the board.
pub proof fn lemma_claim_count_bound(cells: Seq<Cell>, x: int, y: int, radius: int, team: Team)
    ensures
        claim_count(cells, x, y, radius, team) <= cells.len(),
    decreases cells.len(),
{
    if cells.len() > 0 {
        lemma_claim_count_bound(cells.drop_last(), x, y, radius, team);
    }
}

impl Grid {
    /// Claims for `team` every hex whose center lies within `radius` of `(x, y)`.
    /// Returns the points won by White and by Black, and the bounce normal: the
    /// renormalized sum of the unit vectors from each recolored hex toward `(x, y)`.
    pub fn flip_disc(&mut self, x: i64, y: i64, radius: i64, team: Team) -> (res: (
        usize,
        usize,
        Option<(i64, i64)>,
    ))
        requires
            old(self).wf(),
            -COORD_LIM <= x <= COORD_LIM,
            -COORD_LIM <= y <= COORD_LIM,
            0 <= radius <= COORD_LIM,
        ensures
            final(self).wf(),
            final(self).cols == old(self).cols,
            final(self).rows == old(self).rows,
            final(self).r == old(self).r,
            final(self).hex_h == old(self).hex_h,
            final(self).cells@ == painted_all(old(self).cells@, x as int, y as int, radius as int, team),
            res.0 == (if team == Team::White {
                claim_count(old(self).cells@, x as int, y as int, radius as int, team)
            } else {
                0
            }),
            res.1 == (if team == Team::Black {
                claim_count(old(self).cells@, x as int, y as int, radius as int, team)
            } else {
                0
            }),
            res.0 + res.1 <= old(self).cells@.len(),
            res.0 == 0 || res.1 == 0,
            match res.2 {
                Some(n) => normal_of(
                    normal_sum(old(self).cells@, x as int, y as int, radius as int, team),
                ) == Some((n.0 as int, n.1 as int)) && -DIR_ONE <= n.0 <= DIR_ONE && -DIR_ONE <= n.1
                    <= DIR_ONE,
                None => normal_of(
                    normal_sum(old(self).cells@, x as int, y as int, radius as int, team),
                ) is None,
            },
    {
        let ghost old_cells = self.cells@;
        let ghost (gx, gy, gr) = (x as int, y as int, radius as int);
        let target = match team {
            Team::Black => HexColor::Black,
            Team::White => HexColor::White,
        };
        let mut white_pts: usize = 0;
        let mut black_pts: usize = 0;
        assert(0 <= radius * radius <= 1_000_000_000_000_000_000) by (nonlinear_arith)
            requires
                0 <= radius <= COORD_LIM,
        ;
        let r2 = radius * radius;
        let mut nx: i64 = 0;
        let mut ny: i64 = 0;
        let n = self.cells.len();
        assert(n <= MAX_SIDE * MAX_SIDE) by (nonlinear_arith)
            requires
                n == self.cols * self.rows,
                self.cols <= MAX_SIDE,
                self.rows <= MAX_SIDE,
                0 <= self.cols,
                0 <= self.rows,
        ;
        let mut i: usize = 0;
        while i < n
            invariant
                0 <= i <= n,
                n == old_cells.len(),
                n <= MAX_SIDE * MAX_SIDE,
                target == team_color(team),
                r2 == gr * gr,
                gx == x,
                gy == y,
                gr == radius,
                -COORD_LIM <= x <= COORD_LIM,
                -COORD_LIM <= y <= COORD_LIM,
                0 <= radius <= COORD_LIM,
                self.cols == old(self).cols,
                self.rows == old(self).rows,
                self.r == old(self).r,
                self.hex_h == old(self).hex_h,
                old(self).cells@ == old_cells,
                old(self).wf(),
                self.cells@.len() == n,
                forall|j: int| 0 <= j < i ==> #[trigger] self.cells@[j] == painted(old_cells[j], gx, gy, gr, team),
                forall|j: int| i <= j < n ==> #[trigger] self.cells@[j] == old_cells[j],
                white_pts == (if team == Team::White {
                    claim_count(old_cells.subrange(0, i as int), gx, gy, gr, team)
                } else {
                    0
                }),
                black_pts == (if team == Team::Black {
                    claim_count(old_cells.subrange(0, i as int), gx, gy, gr, team)
                } else {
                    0
                }),
                claim_count(old_cells.subrange(0, i as int), gx, gy, gr, team) <= i,
                (nx as int, ny as int) == normal_sum(old_cells.subrange(0, i as int), gx, gy, gr, team),
                -(i * DIR_ONE) <= nx <= i * DIR_ONE,
                -(i * DIR_ONE) <= ny <= i * DIR_ONE,
            decreases n - i,
        {
            let cell = self.cells[i];
            proof {
                assert(cell == old_cells[i as int]);
                assert(0 <= cell.cx <= CELL_COORD_MAX && 0 <= cell.cy <= CELL_COORD_MAX);
                let pre = old_cells.subrange(0, i as int);
                let next = old_cells.subrange(0, i as int + 1);
                assert(next.drop_last() =~= pre);
                assert(next.last() == cell);
            }
            let dx = cell.cx - x;
            let dy = cell.cy - y;
            assert(0 <= dx * dx <= 2_000_000_000_000_000_000) by (nonlinear_arith)
                requires
                    -1_400_000_000 <= dx <= 1_400_000_000,
            ;
            assert(0 <= dy * dy <= 2_000_000_000_000_000_000) by (nonlinear_arith)
                requires
                    -1_400_000_000 <= dy <= 1_400_000_000,
            ;
            assert(0 <= radius * radius <= 1_000_000_000_000_000_000) by (nonlinear_arith)
                requires
                    0 <= radius <= COORD_LIM,
            ;
            if dx * dx + dy * dy <= r2 && cell.color != target {
                self.cells.set(i, Cell { color: target, ..cell });
                proof {
                    assert(i * DIR_ONE + DIR_ONE == (i + 1) * DIR_ONE) by (nonlinear_arith);
                    assert(x - cell.cx == -dx && y - cell.cy == -dy);
                }
                let u = unit_vector(x - cell.cx, y - cell.cy);
                nx = nx + u.0;
                ny = ny + u.1;
                match team {
                    Team::White => {
                        white_pts = white_pts + 1;
                    },
                    Team::Black => {
                        black_pts = black_pts + 1;
                    },
                }
            } else {
                proof {
                    assert(i * DIR_ONE <= (i + 1) * DIR_ONE) by (nonlinear_arith);
                    if in_reach(cell, gx, gy, gr) {
                        assert(self.cells@[i as int] == painted(old_cells[i as int], gx, gy, gr, team));
                    }
                }
            }
            proof {
                assert(old_cells.subrange(0, i as int + 1).drop_last() =~= old_cells.subrange(0, i as int));
            }
            i = i + 1;
        }
        proof {
            assert(old_cells.subrange(0, n as int) =~= old_cells);
            assert(self.cells@ =~= painted_all(old_cells, gx, gy, gr, team));
            assert forall|c: int, k: int|
                0 <= c < self.cols && 0 <= k < self.rows implies #[trigger] cell_placed(
                    self.cells@[c * self.rows + k],
                    c,
                    k,
                    self.r as int,
                    self.hex_h as int,
                ) by {
                lemma_index_range(c, k, self.cols as int, self.rows as int);
                assert(cell_placed(old_cells[c * self.rows + k], c, k, self.r as int, self.hex_h as int));
            }
            assert forall|j: int| 0 <= j < self.cells@.len() implies 0
                <= #[trigger] self.cells@[j].cx <= CELL_COORD_MAX && 0
                <= self.cells@[j].cy <= CELL_COORD_MAX by {
                assert(0 <= old_cells[j].cx <= CELL_COORD_MAX);
            }
            assert(n * DIR_ONE <= MAX_SIDE * MAX_SIDE * DIR_ONE) by (nonlinear_arith)
                requires
                    n <= MAX_SIDE * MAX_SIDE,
            ;
        }
        proof {
            lemma_claim_count_bound(old_cells, gx, gy, gr, team);
        }
        let normal = direction(nx, ny);
        (white_pts, black_pts, normal)
    }
}

/// Point lookup finds the hex at column `c`, row `k` from any point closer to its center than
/// half the column pitch (`0.75 r`) across and half the vertical step down.
pub proof fn lemma_locate_near_center(g: &Grid, c: int, k: int, dx: int, dy: int)
    requires
        g.wf(),
        0 <= c < g.cols,
        0 <= k < g.rows,
        4 * dx < 3 * g.r,
        -(4 * dx) < 3 * g.r,
        2 * dy < g.hex_h,
        -(2 * dy) < g.hex_h,
    ensures
        g.locate_spec(center_x(g.r as int, c) + dx, center_y(g.hex_h as int, c, k) + dy) == Some(
            c * g.rows + k,
        ),
{
    let r = g.r as int;
    let hh = g.hex_h as int;
    lemma_hex_h_bounds(r, hh);
    let step = step_x(r);
    assert(2 * step == 3 * r);
    assert(c * step == step * c) by (nonlinear_arith);
    assert(k * hh == hh * k) by (nonlinear_arith);
    assert(0 <= dx + step / 2 < step);
    lemma_div_multiples_vanish_fancy(c, dx + step / 2, step);
    assert(nearest_col(r, center_x(r, c) + dx) == c);
    assert(0 <= dy + hh / 2 < hh);
    lemma_div_multiples_vanish_fancy(k, dy + hh / 2, hh);
    assert(nearest_row(hh, c, center_y(hh, c, k) + dy) == k);
}

} // verus!
