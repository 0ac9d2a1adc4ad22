//! The dense grid map: a rectangle of world space cut into `columns x rows`
//! cells, each holding one value, with the world-to-cell and cell-to-world
//! mappings.

use vstd::prelude::*;
use vstd::arithmetic::div_mod::{
    lemma_fundamental_div_mod, lemma_fundamental_div_mod_converse, lemma_div_is_ordered,
};
use crate::geom::{Vec2Fix, IVec2, Rect, IRect, COORD_LIMIT, div_floor, mul_i64, bounded};
use crate::components::OutOfBounds;

verus! {

/// Largest cell count (columns times rows) a grid map may hold.
pub const CELLS_LIMIT: usize = 4_194_304;

/// A rectangle is degenerate when its projected size is zero or negative in
/// some dimension; such a search yields no candidate cells.
pub open spec fn degenerate_rect_spec(r: Rect) -> bool {
    r.max.x <= r.min.x || r.max.y <= r.min.y
}

/// A dense `columns x rows` table of values covering the world rectangle
/// `area`.  Cell `(x, y)` covers the half-open world rectangle starting at
/// `area.min + (x, y) * cell_dimentions`; `(0, 0)` sits at `area.min`.
pub struct GridMap<T> where T: Copy {
    pub grid: Vec<T>,
    pub cell_dimentions: Vec2Fix,
    pub columns: usize,
    pub rows: usize,
    pub area: Rect,
}

impl<T: Copy> View for GridMap<T> {
    type V = Seq<T>;

    open spec fn view(&self) -> Seq<T> {
        self.grid@
    }
}

impl<T: Copy> GridMap<T> {
    /// Geometric well-formedness: positive cell counts, cell dimensions that
    /// are the element-wise quotient of the area size, and a backing vector
    /// of exactly `columns * rows` values.
    pub open spec fn inv(self) -> bool {
        &&& 1 <= self.columns
        &&& 1 <= self.rows
        &&& self.columns * self.rows <= CELLS_LIMIT
        &&& self@.len() == self.columns * self.rows
        &&& bounded(self.area.min, COORD_LIMIT as int)
        &&& bounded(self.area.max, COORD_LIMIT as int)
        &&& self.area.min.x < self.area.max.x
        &&& self.area.min.y < self.area.max.y
        &&& self.cell_dimentions.x == (self.area.max.x - self.area.min.x) / (self.columns as int)
        &&& self.cell_dimentions.y == (self.area.max.y - self.area.min.y) / (self.rows as int)
        &&& 1 <= self.cell_dimentions.x
        &&& 1 <= self.cell_dimentions.y
    }

    /// The geometry fields of two maps agree (only cell values differ).
    pub open spec fn same_geometry<U: Copy>(self, other: GridMap<U>) -> bool {
        &&& self.columns == other.columns
        &&& self.rows == other.rows
        &&& self.area == other.area
        &&& self.cell_dimentions == other.cell_dimentions
    }

    pub open spec fn valid_cell(self, x: int, y: int) -> bool {
        0 <= x < self.columns && 0 <= y < self.rows
    }

    /// Row-major position of cell `(x, y)` in the backing vector.
    pub open spec fn idx(self, x: int, y: int) -> int {
        y * (self.columns as int) + x
    }

    /// Cell column of a world x coordinate (floor division; may be out of
    /// range).
    pub open spec fn cell_x_of(self, px: int) -> int {
        (px - self.area.min.x) / (self.cell_dimentions.x as int)
    }

    /// Cell row of a world y coordinate.
    pub open spec fn cell_y_of(self, py: int) -> int {
        (py - self.area.min.y) / (self.cell_dimentions.y as int)
    }

    /// World x coordinate of the center of cell column `cx`.
    pub open spec fn cell_center_x(self, cx: int) -> int {
        self.area.min.x + cx * (self.cell_dimentions.x as int) + (self.cell_dimentions.x as int) / 2
    }

    /// World y coordinate of the center of cell row `cy`.
    pub open spec fn cell_center_y(self, cy: int) -> int {
        self.area.min.y + cy * (self.cell_dimentions.y as int) + (self.cell_dimentions.y as int) / 2
    }

    /// Center of cell `(cx, cy)` as a world point.
    pub open spec fn cell_center(self, cx: int, cy: int) -> Vec2Fix {
        Vec2Fix { x: self.cell_center_x(cx) as i64, y: self.cell_center_y(cy) as i64 }
    }

    /// The half-open world rectangle covered by cell `(cx, cy)` meets the
    /// closed rectangle `r` in at least one point.
    pub open spec fn cell_intersects(self, r: Rect, cx: int, cy: int) -> bool {
        let x0 = self.area.min.x + cx * (self.cell_dimentions.x as int);
        let y0 = self.area.min.y + cy * (self.cell_dimentions.y as int);
        &&& x0 <= r.max.x
        &&& r.min.x < x0 + (self.cell_dimentions.x as int)
        &&& y0 <= r.max.y
        &&& r.min.y < y0 + (self.cell_dimentions.y as int)
    }

    /// A cell whose center a rectangle contains is also met by it: the
    /// center lies inside the cell's own half-open world rectangle.
    pub proof fn lemma_center_in_cell(self, r: Rect, cx: int, cy: int)
        requires
            self.inv(),
            self.valid_cell(cx, cy),
            r.contains_spec(self.cell_center(cx, cy)),
        ensures
            self.cell_intersects(r, cx, cy),
    {
        self.lemma_cell_center_in_area(cx, cy);
        let dx = self.cell_dimentions.x as int;
        let dy = self.cell_dimentions.y as int;
        assert(0 <= dx / 2 < dx);
        assert(0 <= dy / 2 < dy);
    }

    /// Each cell count alone is within the overall cell limit.
    pub proof fn lemma_counts_bounded(self)
        requires
            self.inv(),
        ensures
            self.columns <= CELLS_LIMIT,
            self.rows <= CELLS_LIMIT,
            1 <= self.cell_dimentions.x <= 2 * COORD_LIMIT,
            1 <= self.cell_dimentions.y <= 2 * COORD_LIMIT,
    {
        assert(self.columns <= self.columns * self.rows && self.rows <= self.columns * self.rows)
            by (nonlinear_arith)
            requires
                1 <= self.columns,
                1 <= self.rows,
        {}
        vstd::arithmetic::div_mod::lemma_div_nonincreasing(
            self.area.max.x - self.area.min.x,
            self.columns as int,
        );
        vstd::arithmetic::div_mod::lemma_div_nonincreasing(
            self.area.max.y - self.area.min.y,
            self.rows as int,
        );
    }

    /// A valid cell's row-major index is within the backing vector.
    pub broadcast proof fn lemma_idx_bounds(self, x: int, y: int)
        requires
            self.inv(),
            self.valid_cell(x, y),
        ensures
            0 <= #[trigger] self.idx(x, y) < self@.len(),
    {
        assert(0 <= y * (self.columns as int) + x
            && y * (self.columns as int) + x < (self.columns as int) * (self.rows as int))
            by (nonlinear_arith)
            requires
                0 <= x < self.columns as int,
                0 <= y < self.rows as int,
        {}
    }

    /// Valid cells and their row-major indices are in bijection.
    pub proof fn lemma_idx_injective(self, x1: int, y1: int, x2: int, y2: int)
        requires
            self.inv(),
            self.valid_cell(x1, y1),
            self.valid_cell(x2, y2),
        ensures
            (self.idx(x1, y1) == self.idx(x2, y2)) <==> (x1 == x2 && y1 == y2),
    {
        if self.idx(x1, y1) == self.idx(x2, y2) {
            assert(y1 == y2 && x1 == x2) by (nonlinear_arith)
                requires
                    0 <= x1 < self.columns as int,
                    0 <= y1,
                    0 <= x2 < self.columns as int,
                    0 <= y2,
                    y1 * (self.columns as int) + x1 == y2 * (self.columns as int) + x2,
            {}
        }
    }

    /// `columns * cell width` does not exceed the area width (and likewise
    /// for rows), so every valid cell lies inside the area.
    pub proof fn lemma_cells_cover(self)
        requires
            self.inv(),
        ensures
            (self.columns as int) * (self.cell_dimentions.x as int)
                <= self.area.max.x - self.area.min.x,
            (self.rows as int) * (self.cell_dimentions.y as int)
                <= self.area.max.y - self.area.min.y,
    {
        let sx = self.area.max.x - self.area.min.x;
        let cols = self.columns as int;
        lemma_fundamental_div_mod(sx, cols);
        assert(cols * (sx / cols) <= sx);
        let sy = self.area.max.y - self.area.min.y;
        let rws = self.rows as int;
        lemma_fundamental_div_mod(sy, rws);
        assert(rws * (sy / rws) <= sy);
        assert((self.columns as int) * (self.cell_dimentions.x as int) == cols * (sx / cols));
        assert((self.rows as int) * (self.cell_dimentions.y as int) == rws * (sy / rws));
    }

    /// The center of a valid cell lies strictly inside the area, and the
    /// specification-level center equals its `i64` image.
    pub proof fn lemma_cell_center_in_area(self, cx: int, cy: int)
        requires
            self.inv(),
            self.valid_cell(cx, cy),
        ensures
            self.area.min.x <= self.cell_center_x(cx) <= self.area.max.x,
            self.area.min.y <= self.cell_center_y(cy) <= self.area.max.y,
            self.cell_center(cx, cy).x == self.cell_center_x(cx),
            self.cell_center(cx, cy).y == self.cell_center_y(cy),
            bounded(self.cell_center(cx, cy), COORD_LIMIT as int),
    {
        self.lemma_cells_cover();
        let dx = self.cell_dimentions.x as int;
        let dy = self.cell_dimentions.y as int;
        let cols = self.columns as int;
        let rws = self.rows as int;
        assert(cx * dx + dx <= cols * dx && 0 <= cx * dx) by (nonlinear_arith)
            requires 0 <= cx < cols, 1 <= dx,
        {}
        assert(cy * dy + dy <= rws * dy && 0 <= cy * dy) by (nonlinear_arith)
            requires 0 <= cy < rws, 1 <= dy,
        {}
        assert(0 <= dx / 2 < dx);
        assert(0 <= dy / 2 < dy);
    }

    /// A valid cell's center maps back to the same cell.
    pub proof fn lemma_center_roundtrip(self, cx: int, cy: int)
        requires
            self.inv(),
            self.valid_cell(cx, cy),
        ensures
            self.cell_x_of(self.cell_center_x(cx)) == cx,
            self.cell_y_of(self.cell_center_y(cy)) == cy,
    {
        let dx = self.cell_dimentions.x as int;
        let dy = self.cell_dimentions.y as int;
        assert(0 <= dx / 2 < dx);
        assert(0 <= dy / 2 < dy);
        lemma_fundamental_div_mod_converse(cx * dx + dx / 2, dx, cx, dx / 2);
        lemma_fundamental_div_mod_converse(cy * dy + dy / 2, dy, cy, dy / 2);
    }

    /// Round trip between the world-to-cell and cell-to-world mappings: for a
    /// world point whose cell is valid, the center of that cell lies within
    /// half a cell dimension of the point, componentwise.
    pub proof fn lemma_cell_roundtrip(self, p: Vec2Fix)
        requires
            self.inv(),
            self.valid_cell(self.cell_x_of(p.x as int), self.cell_y_of(p.y as int)),
        ensures
            ({
                let c = self.cell_center(self.cell_x_of(p.x as int), self.cell_y_of(p.y as int));
                &&& -(self.cell_dimentions.x as int) / 2 <= c.x - p.x <= (self.cell_dimentions.x as int) / 2
                &&& -(self.cell_dimentions.y as int) / 2 <= c.y - p.y <= (self.cell_dimentions.y as int) / 2
            }),
    {
        let cx = self.cell_x_of(p.x as int);
        let cy = self.cell_y_of(p.y as int);
        self.lemma_cell_center_in_area(cx, cy);
        let dx = self.cell_dimentions.x as int;
        let dy = self.cell_dimentions.y as int;
        lemma_fundamental_div_mod(p.x - self.area.min.x, dx);
        lemma_fundamental_div_mod(p.y - self.area.min.y, dy);
        let rx = (p.x - self.area.min.x) % dx;
        let ry = (p.y - self.area.min.y) % dy;
        assert(p.x - self.area.min.x == dx * cx + rx);
        assert(self.cell_center_x(cx) - p.x == dx / 2 - rx) by (nonlinear_arith)
            requires
                p.x - self.area.min.x == dx * cx + rx,
                self.cell_center_x(cx) == self.area.min.x + cx * dx + dx / 2,
        {}
        assert(self.cell_center_y(cy) - p.y == dy / 2 - ry) by (nonlinear_arith)
            requires
                p.y - self.area.min.y == dy * cy + ry,
                self.cell_center_y(cy) == self.area.min.y + cy * dy + dy / 2,
        {}
        assert(dx == 2 * (dx / 2) + dx % 2) by {
            lemma_fundamental_div_mod(dx, 2);
        }
        assert(dy == 2 * (dy / 2) + dy % 2) by {
            lemma_fundamental_div_mod(dy, 2);
        }
    }

    /// Builds a map with every cell holding `default_value`.
    pub fn new(columns: usize, rows: usize, area: Rect, default_value: T) -> (g: GridMap<T>)
        requires
            1 <= columns,
            1 <= rows,
            columns * rows <= CELLS_LIMIT,
            bounded(area.min, COORD_LIMIT as int),
            bounded(area.max, COORD_LIMIT as int),
            area.min.x < area.max.x,
            area.min.y < area.max.y,
            columns <= area.max.x - area.min.x,
            rows <= area.max.y - area.min.y,
        ensures
            g.inv(),
            g.columns == columns,
            g.rows == rows,
            g.area == area,
            g@.len() == columns * rows,
            forall|i: int| 0 <= i < g@.len() ==> g@[i] == default_value,
    {
        let lx = area.max.x - area.min.x;
        let ly = area.max.y - area.min.y;
        let cw = ((lx as u64) / (columns as u64)) as i64;
        let ch = ((ly as u64) / (rows as u64)) as i64;
        proof {
            lemma_div_is_ordered(columns as int, lx as int, columns as int);
            lemma_fundamental_div_mod_converse(columns as int, columns as int, 1, 0);
            lemma_div_is_ordered(rows as int, ly as int, rows as int);
            lemma_fundamental_div_mod_converse(rows as int, rows as int, 1, 0);
        }
        let total = columns * rows;
        let mut grid: Vec<T> = Vec::new();
        let mut i: usize = 0;
        while i < total
            invariant
                i <= total,
                grid@.len() == i,
                forall|k: int| 0 <= k < i ==> grid@[k] == default_value,
            decreases total - i,
        {
            grid.push(default_value);
            i = i + 1;
        }
        GridMap {
            grid,
            cell_dimentions: Vec2Fix { x: cw, y: ch },
            columns,
            rows,
            area,
        }
    }

    /// Overwrites every cell with `default_value`.
    pub fn reset(&mut self, default_value: T)
        requires
            old(self).inv(),
        ensures
            final(self).inv(),
            final(self).same_geometry(*old(self)),
            final(self)@.len() == old(self)@.len(),
            forall|i: int| 0 <= i < final(self)@.len() ==> final(self)@[i] == default_value,
    {
        let n = self.grid.len();
        let mut i: usize = 0;
        while i < n
            invariant
                i <= n,
                self.grid@.len() == n,
                self.columns == old(self).columns,
                self.rows == old(self).rows,
                self.area == old(self).area,
                self.cell_dimentions == old(self).cell_dimentions,
                n == old(self)@.len(),
                forall|k: int| 0 <= k < i ==> self.grid@[k] == default_value,
            decreases n - i,
        {
            self.grid.set(i, default_value);
            i = i + 1;
        }
    }

    /// The (possibly out-of-range) cell coordinates of a world point.
    fn get_cell_unsafe(&self, pos: Vec2Fix) -> (c: IVec2)
        requires
            self.inv(),
            bounded(pos, 2 * COORD_LIMIT as int),
        ensures
            c.x == self.cell_x_of(pos.x as int),
            c.y == self.cell_y_of(pos.y as int),
    {
        let rx = pos.x - self.area.min.x;
        let ry = pos.y - self.area.min.y;
        let cx = div_floor(rx, self.cell_dimentions.x);
        let cy = div_floor(ry, self.cell_dimentions.y);
        IVec2 { x: cx, y: cy }
    }

    /// `Some(pos)` exactly when `pos` is a valid cell of this grid.
    fn check_bounds(&self, pos: IVec2) -> (r: Option<IVec2>)
        requires
            self.inv(),
        ensures
            r == if self.valid_cell(pos.x as int, pos.y as int) {
                Some(pos)
            } else {
                None::<IVec2>
            },
    {
        proof {
            self.lemma_counts_bounded();
        }
        if pos.x < 0 || pos.x >= self.columns as i64 || pos.y < 0 || pos.y >= self.rows as i64 {
            None
        } else {
            Some(pos)
        }
    }

    /// The valid cell containing the world point, or `None` for a point
    /// whose cell coordinates fall outside the grid.
    pub fn get_cell(&self, pos: Vec2Fix) -> (r: Option<IVec2>)
        requires
            self.inv(),
            bounded(pos, 2 * COORD_LIMIT as int),
        ensures
            r == if self.valid_cell(self.cell_x_of(pos.x as int), self.cell_y_of(pos.y as int)) {
                Some(IVec2 {
                    x: self.cell_x_of(pos.x as int) as i64,
                    y: self.cell_y_of(pos.y as int) as i64,
                })
            } else {
                None::<IVec2>
            },
    {
        let coords = self.get_cell_unsafe(pos);
        self.check_bounds(IVec2 { x: coords.x, y: coords.y })
    }

    /// The world center of a valid cell.
    pub fn get_coord(&self, cell: IVec2) -> (r: Vec2Fix)
        requires
            self.inv(),
            self.valid_cell(cell.x as int, cell.y as int),
        ensures
            r == self.cell_center(cell.x as int, cell.y as int),
            bounded(r, COORD_LIMIT as int),
    {
        proof {
            self.lemma_counts_bounded();
            self.lemma_cell_center_in_area(cell.x as int, cell.y as int);
        }
        let dx = self.cell_dimentions.x;
        let dy = self.cell_dimentions.y;
        let px = self.area.min.x + mul_i64(cell.x, dx) + ((dx as u64) / 2) as i64;
        let py = self.area.min.y + mul_i64(cell.y, dy) + ((dy as u64) / 2) as i64;
        Vec2Fix { x: px, y: py }
    }

    /// The value at a cell, or `None` for a cell outside the grid.
    pub fn get_value_at_cell(&self, pos: IVec2) -> (r: Option<T>)
        requires
            self.inv(),
        ensures
            r == if self.valid_cell(pos.x as int, pos.y as int) {
                Some(self@[self.idx(pos.x as int, pos.y as int)])
            } else {
                None::<T>
            },
    {
        if let Some(p) = self.check_bounds(pos) {
            proof {
                self.lemma_idx_bounds(p.x as int, p.y as int);
            }
            let i = (p.x as usize) + (p.y as usize) * self.columns;
            Some(self.grid[i])
        } else {
            None
        }
    }

    /// The value at the cell containing a world point, or `None` for a point
    /// outside the grid.
    pub fn get_value_at(&self, pos: Vec2Fix) -> (r: Option<T>)
        requires
            self.inv(),
            bounded(pos, 2 * COORD_LIMIT as int),
        ensures
            r == if self.valid_cell(self.cell_x_of(pos.x as int), self.cell_y_of(pos.y as int)) {
                Some(self@[self.idx(self.cell_x_of(pos.x as int), self.cell_y_of(pos.y as int))])
            } else {
                None::<T>
            },
    {
        proof {
            self.lemma_counts_bounded();
        }
        match self.get_cell(pos) {
            Some(cell) => self.get_value_at_cell(cell),
            None => None,
        }
    }

    /// Writes a cell; `Err(OutOfBounds)` exactly when the cell is outside
    /// the grid, in which case nothing changes.
    pub fn set_value(&mut self, pos: IVec2, value: T) -> (r: Result<(), OutOfBounds>)
        requires
            old(self).inv(),
        ensures
            final(self).inv(),
            final(self).same_geometry(*old(self)),
            r == if old(self).valid_cell(pos.x as int, pos.y as int) {
                Result::<(), OutOfBounds>::Ok(())
            } else {
                Result::<(), OutOfBounds>::Err(OutOfBounds)
            },
            old(self).valid_cell(pos.x as int, pos.y as int) ==> final(self)@ == old(self)@.update(
                old(self).idx(pos.x as int, pos.y as int),
                value,
            ),
            !old(self).valid_cell(pos.x as int, pos.y as int) ==> final(self)@ == old(self)@,
    {
        if let Some(p) = self.check_bounds(pos) {
            proof {
                self.lemma_idx_bounds(p.x as int, p.y as int);
            }
            let i = (p.x as usize) + (p.y as usize) * self.columns;
            self.grid.set(i, value);
            Result::Ok(())
        } else {
            Result::Err(OutOfBounds)
        }
    }

    /// The value at a row-major index, or `None` past the end.
    pub fn get_value_by_index(&self, i: usize) -> (r: Option<T>)
        requires
            self.inv(),
        ensures
            r == if i < self@.len() {
                Some(self@[i as int])
            } else {
                None::<T>
            },
    {
        if i >= self.columns * self.rows {
            return None;
        }
        Some(self.grid[i])
    }

    /// Writes by row-major index; `Err(OutOfBounds)` exactly when the index
    /// is past the end, in which case nothing changes.
    pub fn set_value_by_index(&mut self, i: usize, value: T) -> (r: Result<(), OutOfBounds>)
        requires
            old(self).inv(),
        ensures
            final(self).inv(),
            final(self).same_geometry(*old(self)),
            r == if i < old(self)@.len() {
                Result::<(), OutOfBounds>::Ok(())
            } else {
                Result::<(), OutOfBounds>::Err(OutOfBounds)
            },
            i < old(self)@.len() ==> final(self)@ == old(self)@.update(i as int, value),
            i >= old(self)@.len() ==> final(self)@ == old(self)@,
    {
        if i >= self.columns * self.rows {
            return Result::Err(OutOfBounds);
        }
        self.grid.set(i, value);
        Result::Ok(())
    }

    /// The inclusive range of cells that could intersect `search_area`,
    /// clamped to the grid, or `None` when the search rectangle is
    /// degenerate or entirely outside the grid.  The range is conservative
    /// but complete: it covers every valid cell whose world rectangle meets
    /// a non-degenerate `search_area` (in particular every cell whose
    /// center lies inside it); callers re-test per cell.
    pub fn cells_within_rect(&self, search_area: Rect) -> (r: Option<IRect>)
        requires
            self.inv(),
            bounded(search_area.min, 2 * COORD_LIMIT as int),
            bounded(search_area.max, 2 * COORD_LIMIT as int),
        ensures
            r is Some ==> {
                let rg = r->Some_0;
                &&& 0 <= rg.min.x <= rg.max.x < self.columns
                &&& 0 <= rg.min.y <= rg.max.y < self.rows
                &&& !degenerate_rect_spec(search_area)
            },
            forall|cx: int, cy: int|
                self.valid_cell(cx, cy) && !degenerate_rect_spec(search_area)
                    && #[trigger] self.cell_intersects(search_area, cx, cy) ==> {
                    &&& r is Some
                    &&& r->Some_0.min.x <= cx <= r->Some_0.max.x
                    &&& r->Some_0.min.y <= cy <= r->Some_0.max.y
                },
            forall|cx: int, cy: int|
                self.valid_cell(cx, cy) && !degenerate_rect_spec(search_area)
                    && search_area.contains_spec(#[trigger] self.cell_center(cx, cy)) ==> {
                    &&& r is Some
                    &&& r->Some_0.min.x <= cx <= r->Some_0.max.x
                    &&& r->Some_0.min.y <= cy <= r->Some_0.max.y
                },
    {
        proof {
            self.lemma_counts_bounded();
        }
        if search_area.max.x <= search_area.min.x || search_area.max.y <= search_area.min.y {
            return None;
        }
        let lo = self.get_cell_unsafe(search_area.min);
        let hi = self.get_cell_unsafe(search_area.max);
        let lo_x = if lo.x < 0 { 0 } else { lo.x };
        let lo_y = if lo.y < 0 { 0 } else { lo.y };
        let cols = self.columns as i64;
        let rws = self.rows as i64;
        let hi_x = if hi.x > cols - 1 { cols - 1 } else { hi.x };
        let hi_y = if hi.y > rws - 1 { rws - 1 } else { hi.y };
        proof {
            assert forall|cx: int, cy: int|
                self.valid_cell(cx, cy)
                    && #[trigger] self.cell_intersects(search_area, cx, cy) implies {
                &&& lo_x <= cx <= hi_x
                &&& lo_y <= cy <= hi_y
            } by {
                let dx = self.cell_dimentions.x as int;
                let dy = self.cell_dimentions.y as int;
                let x0 = self.area.min.x + cx * dx;
                let y0 = self.area.min.y + cy * dy;
                // cx at most the floor cell of the search maximum
                vstd::arithmetic::div_mod::lemma_div_by_multiple(cx, dx);
                lemma_div_is_ordered(cx * dx, search_area.max.x - self.area.min.x, dx);
                vstd::arithmetic::div_mod::lemma_div_by_multiple(cy, dy);
                lemma_div_is_ordered(cy * dy, search_area.max.y - self.area.min.y, dy);
                // cx at least the floor cell of the search minimum
                assert(cx * dx + dx - 1 == dx * cx + (dx - 1)) by (nonlinear_arith) {}
                lemma_fundamental_div_mod_converse(cx * dx + dx - 1, dx, cx, dx - 1);
                lemma_div_is_ordered(
                    search_area.min.x - self.area.min.x,
                    cx * dx + dx - 1,
                    dx,
                );
                assert(cy * dy + dy - 1 == dy * cy + (dy - 1)) by (nonlinear_arith) {}
                lemma_fundamental_div_mod_converse(cy * dy + dy - 1, dy, cy, dy - 1);
                lemma_div_is_ordered(
                    search_area.min.y - self.area.min.y,
                    cy * dy + dy - 1,
                    dy,
                );
            }
            assert forall|cx: int, cy: int|
                self.valid_cell(cx, cy)
                    && search_area.contains_spec(#[trigger] self.cell_center(cx, cy)) implies {
                &&& lo_x <= cx <= hi_x
                &&& lo_y <= cy <= hi_y
            } by {
                self.lemma_center_in_cell(search_area, cx, cy);
                assert(self.cell_intersects(search_area, cx, cy));
            }
        }
        if lo_x > hi_x || lo_y > hi_y {
            return None;
        }
        Some(IRect {
            min: IVec2 { x: lo_x, y: lo_y },
            max: IVec2 { x: hi_x, y: hi_y },
        })
    }
}

} // verus!
