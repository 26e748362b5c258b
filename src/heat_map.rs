//! The heat field: a grid of saturation values that cools by one unit on every
//! update and takes heat from a circular brush.

use vstd::prelude::*;
use crate::brush::{brush_contribution, falloff, lemma_falloff_peaks_at_centre};
use crate::matrix::{CellMatrix, matrix_entries, matrix_filled, matrix_get, matrix_nrows, matrix_set};

verus! {

/// Why a heat field could not be made.
#[derive(Debug, Clone, Copy, PartialEq, Eq, Structural)]
pub enum ConfigurationError {
    /// The grid has no columns or no rows.
    EmptyGrid,
    /// The grid has more cells than memory can index, or the far cells lie beyond
    /// the `u32` coordinate range.
    GridTooLarge,
}

/// A cell with heat in it: its column, its row and its value.
#[derive(Debug, Clone, Copy, PartialEq, Eq, Structural)]
pub struct HeatPoint {
    pub column: u32,
    pub row: u32,
    pub value: u32,
}

/// A `width` by `height` grid of saturation values. Column `c` and row `r` lie at
/// `(c * cell_spacing + x_start, r * cell_spacing + y_start)`; every value is at
/// most `max_red_saturation`.
pub struct HeatMap {
    x_start: u32,
    y_start: u32,
    width: u32,
    height: u32,
    matrix: CellMatrix,
    cell_spacing: u32,
    brush_radius: u32,
    brush_intensity: u32,
    max_red_saturation: u32,
}

/// The value of column `column`, row `row` in the entries of a grid with `height`
/// rows (one matrix row per grid row, one matrix column per grid column).
pub open spec fn grid_cell(entries: Seq<u32>, height: int, column: int, row: int) -> u32 {
    entries[column * height + row]
}

/// A value after one step of cooling: one less, but never below zero.
pub open spec fn decayed(v: nat) -> nat {
    if v > 0 {
        (v - 1) as nat
    } else {
        0
    }
}

/// Whether a grid with these dimensions and placement can be held: it has cells,
/// memory can index them all, and every cell's coordinates fit in a `u32`.
pub open spec fn valid_configuration(
    x_start: nat,
    y_start: nat,
    width: nat,
    height: nat,
    cell_spacing: nat,
) -> bool {
    &&& width >= 1
    &&& height >= 1
    &&& width * height <= usize::MAX
    &&& (width - 1) * cell_spacing + x_start <= u32::MAX
    &&& (height - 1) * cell_spacing + y_start <= u32::MAX
}

impl HeatMap {
    /// The x coordinate of column 0.
    pub closed spec fn origin_x(self) -> nat {
        self.x_start as nat
    }

    /// The y coordinate of row 0.
    pub closed spec fn origin_y(self) -> nat {
        self.y_start as nat
    }

    /// The number of columns.
    pub closed spec fn grid_width(self) -> nat {
        self.width as nat
    }

    /// The number of rows.
    pub closed spec fn grid_height(self) -> nat {
        self.height as nat
    }

    /// The distance between neighbouring cells.
    pub closed spec fn spacing(self) -> nat {
        self.cell_spacing as nat
    }

    /// The brush's radius before it is scaled by the heat; its reach is that times the spacing.
    pub closed spec fn radius(self) -> nat {
        self.brush_radius as nat
    }

    /// The brush's intensity before it is scaled by the heat.
    pub closed spec fn intensity(self) -> nat {
        self.brush_intensity as nat
    }

    /// The highest value a cell can hold.
    pub closed spec fn cap(self) -> nat {
        self.max_red_saturation as nat
    }

    /// The value of the cell at column `column`, row `row`.
    pub closed spec fn value_at(self, column: int, row: int) -> nat {
        grid_cell(matrix_entries(self.matrix), self.height as int, column, row) as nat
    }

    /// The matrix holds exactly the grid, and every value is within the cap.
    pub closed spec fn wf(self) -> bool {
        &&& valid_configuration(
            self.x_start as nat,
            self.y_start as nat,
            self.width as nat,
            self.height as nat,
            self.cell_spacing as nat,
        )
        &&& matrix_nrows(self.matrix) == self.height
        &&& matrix_entries(self.matrix).len() == self.width * self.height
        &&& forall|c: int, r: int|
            0 <= c < self.width && 0 <= r < self.height ==> #[trigger] grid_cell(
                matrix_entries(self.matrix),
                self.height as int,
                c,
                r,
            ) <= self.max_red_saturation
    }

    /// Whether column `column`, row `row` is a cell of the grid.
    pub open spec fn in_grid(self, column: int, row: int) -> bool {
        0 <= column < self.grid_width() && 0 <= row < self.grid_height()
    }

    /// Whether `other` has the same dimensions, placement and brush as `self`.
    pub open spec fn same_configuration(self, other: HeatMap) -> bool {
        &&& other.origin_x() == self.origin_x()
        &&& other.origin_y() == self.origin_y()
        &&& other.grid_width() == self.grid_width()
        &&& other.grid_height() == self.grid_height()
        &&& other.spacing() == self.spacing()
        &&& other.radius() == self.radius()
        &&& other.intensity() == self.intensity()
        &&& other.cap() == self.cap()
    }

    /// The x coordinate of column `column`.
    pub open spec fn cell_x(self, column: int) -> int {
        column * self.spacing() + self.origin_x()
    }

    /// The y coordinate of row `row`.
    pub open spec fn cell_y(self, row: int) -> int {
        row * self.spacing() + self.origin_y()
    }

    /// The squared distance from `(x, y)` to the cell at column `column`, row `row`.
    pub open spec fn dist_sq(self, column: int, row: int, x: int, y: int) -> int {
        (self.cell_x(column) - x) * (self.cell_x(column) - x) + (self.cell_y(row) - y) * (
        self.cell_y(row) - y)
    }

    /// Whether a brush at `(x, y)` with `heat` reaches the cell: its distance is below
    /// `radius * heat * spacing`.
    pub open spec fn in_brush(self, column: int, row: int, x: int, y: int, heat: nat) -> bool {
        let reach = self.radius() * heat * self.spacing();
        self.dist_sq(column, row, x, y) < reach * reach
    }

    /// The heat that a brush at `(x, y)` with `heat` gives the cell: its distance
    /// remapped from `[0, radius * heat + spacing]` onto `[intensity * heat, 0]`,
    /// rounded down and never negative.
    pub open spec fn brush_heat(self, column: int, row: int, x: int, y: int, heat: nat) -> nat {
        falloff(
            self.intensity() * heat,
            self.radius() * heat + self.spacing(),
            self.dist_sq(column, row, x, y) as nat,
        )
    }

    /// The cell's value after one update: cooled by one, then, where the brush is
    /// applied and reaches it, raised by the brush's heat up to the cap.
    pub open spec fn updated_value(
        self,
        column: int,
        row: int,
        x: int,
        y: int,
        heat: nat,
        can_apply: bool,
    ) -> nat {
        let cooled = decayed(self.value_at(column, row));
        if can_apply && self.in_brush(column, row, x, y, heat) {
            let raised = cooled + self.brush_heat(column, row, x, y, heat);
            if raised > self.cap() {
                self.cap()
            } else {
                raised
            }
        } else {
            cooled
        }
    }

    /// One update without the brush: same configuration, every cell cooled by one
    /// (the brush's position and heat then play no part).
    pub open spec fn cools_to(self, next: HeatMap) -> bool {
        &&& self.same_configuration(next)
        &&& forall|c: int, r: int|
            self.in_grid(c, r) ==> #[trigger] next.value_at(c, r) == self.updated_value(
                c,
                r,
                0,
                0,
                0,
                false,
            )
    }

    /// The cell as a `HeatPoint` if it holds heat, else nothing.
    pub open spec fn point_if_active(self, column: int, row: int) -> Seq<HeatPoint> {
        if self.value_at(column, row) > 0 {
            seq![HeatPoint { column: column as u32, row: row as u32, value: self.value_at(column, row) as u32 }]
        } else {
            seq![]
        }
    }

    /// The cells with heat among the first `upto` columns of row `row`, left to right.
    pub open spec fn active_in_row(self, row: int, upto: nat) -> Seq<HeatPoint>
        decreases upto,
    {
        if upto == 0 {
            seq![]
        } else {
            self.active_in_row(row, (upto - 1) as nat) + self.point_if_active(upto - 1, row)
        }
    }

    /// The cells with heat among the first `upto` rows, in row-major order.
    pub open spec fn active_rows(self, upto: nat) -> Seq<HeatPoint>
        decreases upto,
    {
        if upto == 0 {
            seq![]
        } else {
            self.active_rows((upto - 1) as nat) + self.active_in_row(upto - 1, self.grid_width())
        }
    }

    /// Makes an all-zero grid of `width` columns and `height` rows, whose cell at
    /// column `c`, row `r` lies at `(c * cell_spacing + x_start, r * cell_spacing + y_start)`.
    pub fn new(
        x_start: u32,
        y_start: u32,
        width: u32,
        height: u32,
        cell_spacing: u32,
        brush_radius: u32,
        brush_intensity: u32,
        max_red_saturation: u32,
    ) -> (r: Result<HeatMap, ConfigurationError>)
        ensures
            (width == 0 || height == 0) <==> r == Err::<HeatMap, ConfigurationError>(
                ConfigurationError::EmptyGrid,
            ),
            (width >= 1 && height >= 1 && !valid_configuration(
                x_start as nat,
                y_start as nat,
                width as nat,
                height as nat,
                cell_spacing as nat,
            )) <==> r == Err::<HeatMap, ConfigurationError>(ConfigurationError::GridTooLarge),
            valid_configuration(
                x_start as nat,
                y_start as nat,
                width as nat,
                height as nat,
                cell_spacing as nat,
            ) <==> r is Ok,
            r is Ok ==> {
                let m = r->Ok_0;
                &&& m.wf()
                &&& m.origin_x() == x_start
                &&& m.origin_y() == y_start
                &&& m.grid_width() == width
                &&& m.grid_height() == height
                &&& m.spacing() == cell_spacing
                &&& m.radius() == brush_radius
                &&& m.intensity() == brush_intensity
                &&& m.cap() == max_red_saturation
                &&& forall|c: int, r: int| m.in_grid(c, r) ==> #[trigger] m.value_at(c, r) == 0
            },
    {
        if width == 0 || height == 0 {
            return Err(ConfigurationError::EmptyGrid);
        }
        proof {
            lemma_u32_product((width - 1) as int, cell_spacing as int);
            lemma_u32_product((height - 1) as int, cell_spacing as int);
        }
        let cells = (height as usize).checked_mul(width as usize);
        let far_x = ((width - 1) as u64) * (cell_spacing as u64) + (x_start as u64);
        let far_y = ((height - 1) as u64) * (cell_spacing as u64) + (y_start as u64);
        assert(width as int * height as int == height as int * width as int) by (nonlinear_arith);
        if cells.is_none() || far_x > u32::MAX as u64 || far_y > u32::MAX as u64 {
            return Err(ConfigurationError::GridTooLarge);
        }
        let matrix = matrix_filled(height as usize, width as usize, 0);
        let m = HeatMap {
            x_start,
            y_start,
            width,
            height,
            matrix,
            cell_spacing,
            brush_radius,
            brush_intensity,
            max_red_saturation,
        };
        assert forall|c: int, r: int| 0 <= c < width && 0 <= r < height implies #[trigger] grid_cell(
            matrix_entries(m.matrix),
            height as int,
            c,
            r,
        ) == 0 by {
            lemma_cell_index_bound(width as int, height as int, c, r);
        }
        assert(m.wf());
        assert forall|c: int, r: int| m.in_grid(c, r) implies #[trigger] m.value_at(c, r) == 0 by {
            assert(grid_cell(matrix_entries(m.matrix), height as int, c, r) == 0);
        }
        Ok(m)
    }

    /// The new value of one cell, computed from its current value.
    fn next_value(&self, column: u32, row: u32, x: u32, y: u32, heat: u32, can_apply: bool) -> (v:
        u32)
        requires
            self.wf(),
            self.in_grid(column as int, row as int),
        ensures
            v == self.updated_value(column as int, row as int, x as int, y as int, heat as nat, can_apply),
    {
        proof {
            lemma_cell_index_bound(self.width as int, self.height as int, column as int, row as int);
        }
        let current = matrix_get(&self.matrix, row as usize, column as usize);
        let cooled = if current > 0 {
            current - 1
        } else {
            0
        };
        if !can_apply {
            return cooled;
        }
        let s = self.cell_spacing as u64;
        proof {
            lemma_scaled_below(column as int, (self.width - 1) as int, s as int);
            lemma_scaled_below(row as int, (self.height - 1) as int, s as int);
        }
        let px = (column as u64) * s + (self.x_start as u64);
        let py = (row as u64) * s + (self.y_start as u64);
        let dx = if px >= x as u64 {
            (px - x as u64) as u32
        } else {
            (x as u64 - px) as u32
        };
        let dy = if py >= y as u64 {
            (py - y as u64) as u32
        } else {
            (y as u64 - py) as u32
        };
        proof {
            lemma_u32_product(dx as int, dx as int);
            lemma_u32_product(dy as int, dy as int);
            lemma_square_of_difference(px as int, x as int, dx as int);
            lemma_square_of_difference(py as int, y as int, dy as int);
            lemma_u32_product(self.brush_radius as int, heat as int);
            lemma_u32_product(self.brush_intensity as int, heat as int);
        }
        let dist_sq = (dx as u128) * (dx as u128) + (dy as u128) * (dy as u128);
        let radius = (self.brush_radius as u64) * (heat as u64);
        assert(radius * s <= 0xffff_fffe_0000_0001 * 0xffff_ffff) by (nonlinear_arith)
            requires
                radius <= 0xffff_fffe_0000_0001,
                s <= 0xffff_ffff,
        ;
        let reach = (radius as u128) * (s as u128);
        // Beyond this reach the square exceeds every squared distance in the grid.
        let reach_limit: u128 = 0x2_0000_0000;
        let inside = if reach >= reach_limit {
            assert(reach * reach >= reach_limit * reach_limit) by (nonlinear_arith)
                requires
                    reach >= reach_limit,
                    reach_limit == 0x2_0000_0000,
            ;
            true
        } else {
            assert(reach * reach < reach_limit * reach_limit) by (nonlinear_arith)
                requires
                    0 <= reach < reach_limit,
            ;
            dist_sq < reach * reach
        };
        if !inside {
            return cooled;
        }
        let intensity = (self.brush_intensity as u64) * (heat as u64);
        let added = brush_contribution(intensity, (radius as u128) + (s as u128), dx, dy);
        let raised = (cooled as u128) + (added as u128);
        if raised > self.max_red_saturation as u128 {
            self.max_red_saturation
        } else {
            raised as u32
        }
    }

    /// One tick of the field: every cell cools by one unit (not below zero); then,
    /// where `can_apply` holds, every cell within `radius * heat * spacing` of
    /// `(x, y)` gains the brush's heat for its distance, up to the cap.
    pub fn update(&mut self, x: u32, y: u32, heat: u32, can_apply: bool)
        requires
            old(self).wf(),
        ensures
            final(self).wf(),
            old(self).same_configuration(*final(self)),
            forall|c: int, r: int|
                old(self).in_grid(c, r) ==> #[trigger] final(self).value_at(c, r)
                    == old(self).updated_value(c, r, x as int, y as int, heat as nat, can_apply),
            !can_apply ==> old(self).cools_to(*final(self)),
    {
        let ghost pre = *self;
        let w = self.width;
        let h = self.height;
        let mut row: u32 = 0;
        while row < h
            invariant
                self.wf(),
                pre.wf(),
                pre.same_configuration(*self),
                w == self.width,
                h == self.height,
                row <= h,
                forall|c: int, r: int|
                    pre.in_grid(c, r) ==> #[trigger] self.value_at(c, r) == if r < row {
                        pre.updated_value(c, r, x as int, y as int, heat as nat, can_apply)
                    } else {
                        pre.value_at(c, r)
                    },
            decreases h - row,
        {
            let mut column: u32 = 0;
            while column < w
                invariant
                    self.wf(),
                    pre.wf(),
                    pre.same_configuration(*self),
                    w == self.width,
                    h == self.height,
                    row < h,
                    column <= w,
                        forall|c: int, r: int|
                        pre.in_grid(c, r) ==> #[trigger] self.value_at(c, r) == if r < row || (r
                            == row && c < column) {
                            pre.updated_value(c, r, x as int, y as int, heat as nat, can_apply)
                        } else {
                            pre.value_at(c, r)
                        },
                decreases w - column,
            {
                let v = self.next_value(column, row, x, y, heat, can_apply);
                let ghost before = *self;
                proof {
                    lemma_cell_index_bound(w as int, h as int, column as int, row as int);
                }
                matrix_set(&mut self.matrix, row as usize, column as usize, v);
                proof {
                    assert forall|c: int, r: int| pre.in_grid(c, r) implies #[trigger] self.value_at(
                        c,
                        r,
                    ) == if r < row || (r == row && c < column + 1) {
                        pre.updated_value(c, r, x as int, y as int, heat as nat, can_apply)
                    } else {
                        pre.value_at(c, r)
                    } by {
                        lemma_cell_index_bound(w as int, h as int, c, r);
                        if c != column || r != row {
                            lemma_cell_index_distinct(h as int, c, r, column as int, row as int);
                            assert(self.value_at(c, r) == before.value_at(c, r));
                        }
                    }
                    assert forall|c: int, r: int|
                        0 <= c < self.width && 0 <= r < self.height implies #[trigger] grid_cell(
                        matrix_entries(self.matrix),
                        self.height as int,
                        c,
                        r,
                    ) <= self.max_red_saturation by {
                        assert(self.value_at(c, r) == grid_cell(
                            matrix_entries(self.matrix),
                            self.height as int,
                            c,
                            r,
                        ));
                        assert(grid_cell(matrix_entries(pre.matrix), pre.height as int, c, r)
                            <= pre.max_red_saturation);
                    }
                }
                column += 1;
            }
            row += 1;
        }
    }

    /// The cells that hold heat, as `(column, row, value)`, in row-major order.
    pub fn active_cells(&self) -> (points: Vec<HeatPoint>)
        requires
            self.wf(),
        ensures
            points@ == self.active_rows(self.grid_height()),
    {
        let mut points: Vec<HeatPoint> = Vec::new();
        let mut row: u32 = 0;
        while row < self.height
            invariant
                self.wf(),
                row <= self.height,
                points@ == self.active_rows(row as nat),
            decreases self.height - row,
        {
            let mut column: u32 = 0;
            while column < self.width
                invariant
                    self.wf(),
                    row < self.height,
                    column <= self.width,
                    points@ == self.active_rows(row as nat) + self.active_in_row(
                        row as int,
                        column as nat,
                    ),
                decreases self.width - column,
            {
                proof {
                    lemma_cell_index_bound(self.width as int, self.height as int, column as int, row as int);
                }
                let value = matrix_get(&self.matrix, row as usize, column as usize);
                if value > 0 {
                    points.push(HeatPoint { column, row, value });
                }
                assert(points@ == self.active_rows(row as nat) + self.active_in_row(
                    row as int,
                    (column + 1) as nat,
                ));
                column += 1;
            }
            row += 1;
        }
        points
    }

    /// The value of the cell at column `column`, row `row`, or `None` outside the grid.
    pub fn cell(&self, column: u32, row: u32) -> (v: Option<u32>)
        requires
            self.wf(),
        ensures
            self.in_grid(column as int, row as int) ==> v == Some(
                self.value_at(column as int, row as int) as u32,
            ),
            !self.in_grid(column as int, row as int) ==> v is None,
    {
        if column < self.width && row < self.height {
            proof {
                lemma_cell_index_bound(self.width as int, self.height as int, column as int, row as int);
            }
            Some(matrix_get(&self.matrix, row as usize, column as usize))
        } else {
            None
        }
    }

    /// Where the cell at column `column`, row `row` lies.
    pub fn cell_origin(&self, column: u32, row: u32) -> (p: (u32, u32))
        requires
            self.wf(),
            self.in_grid(column as int, row as int),
        ensures
            p.0 == self.cell_x(column as int),
            p.1 == self.cell_y(row as int),
    {
        proof {
            lemma_scaled_below(column as int, (self.width - 1) as int, self.cell_spacing as int);
            lemma_scaled_below(row as int, (self.height - 1) as int, self.cell_spacing as int);
        }
        (column * self.cell_spacing + self.x_start, row * self.cell_spacing + self.y_start)
    }

    /// The red, green and blue of a cell of `value`: red grows with the value, green
    /// and blue fade out as it nears the cap.
    pub fn fill_channels(&self, value: u32) -> (rgb: (u32, u32, u32))
        requires
            value <= self.cap(),
        ensures
            rgb.0 == value,
            rgb.1 == self.cap() / 2 - value / 2,
            rgb.2 == self.cap() - value,
    {
        (value, self.max_red_saturation / 2 - value / 2, self.max_red_saturation - value)
    }

    /// The number of columns.
    pub fn width(&self) -> (w: u32)
        ensures
            w == self.grid_width(),
    {
        self.width
    }

    /// The number of rows.
    pub fn height(&self) -> (h: u32)
        ensures
            h == self.grid_height(),
    {
        self.height
    }

    /// The distance between neighbouring cells, which is also a cell's size.
    pub fn cell_spacing(&self) -> (s: u32)
        ensures
            s == self.spacing(),
    {
        self.cell_spacing
    }

    /// Where the grid starts: the coordinates of column 0, row 0.
    pub fn origin(&self) -> (o: (u32, u32))
        ensures
            o.0 == self.origin_x(),
            o.1 == self.origin_y(),
    {
        (self.x_start, self.y_start)
    }

    /// The highest value a cell can hold.
    pub fn max_red_saturation(&self) -> (m: u32)
        ensures
            m == self.cap(),
    {
        self.max_red_saturation
    }
}

/// Every cell of a well-formed field, so of any field that `new` made and `update`
/// went on with, lies between zero and the cap.
pub proof fn lemma_values_within_cap(m: HeatMap)
    requires
        m.wf(),
    ensures
        forall|c: int, r: int| m.in_grid(c, r) ==> #[trigger] m.value_at(c, r) <= m.cap(),
{
    assert forall|c: int, r: int| m.in_grid(c, r) implies #[trigger] m.value_at(c, r) <= m.cap() by {
        assert(grid_cell(matrix_entries(m.matrix), m.height as int, c, r) <= m.max_red_saturation);
    }
}

/// After `k` updates without the brush, each cell has lost `k` units, down to zero.
proof fn lemma_cooled_after(ms: Seq<HeatMap>, k: int)
    requires
        0 <= k < ms.len(),
        forall|i: int| 0 <= i < ms.len() - 1 ==> #[trigger] ms[i].cools_to(ms[i + 1]),
    ensures
        ms[0].same_configuration(ms[k]),
        forall|c: int, r: int|
            ms[0].in_grid(c, r) ==> #[trigger] ms[k].value_at(c, r) == if ms[0].value_at(c, r)
                >= k {
                ms[0].value_at(c, r) - k
            } else {
                0
            },
    decreases k,
{
    if k > 0 {
        lemma_cooled_after(ms, k - 1);
        let j = k - 1;
        assert(ms[j].cools_to(ms[j + 1]));
        assert forall|c: int, r: int| ms[0].in_grid(c, r) implies #[trigger] ms[k].value_at(c, r)
            == if ms[0].value_at(c, r) >= k {
            ms[0].value_at(c, r) - k
        } else {
            0
        } by {
            assert(ms[k - 1].in_grid(c, r));
            assert(ms[k].value_at(c, r) == ms[k - 1].updated_value(c, r, 0, 0, 0, false));
        }
    }
}

/// Updates without the brush make every cell fall by one each time until it holds
/// zero, where it stays; a cell that started at `v` holds zero after `v` of them, so
/// the whole field is cold after as many updates as its largest value.
pub proof fn lemma_cooling_runs_down(ms: Seq<HeatMap>)
    requires
        ms.len() > 0,
        forall|i: int| 0 <= i < ms.len() - 1 ==> #[trigger] ms[i].cools_to(ms[i + 1]),
    ensures
        forall|k: int, c: int, r: int|
            0 <= k < ms.len() - 1 && ms[0].in_grid(c, r) ==> {
                ||| ms[k + 1].value_at(c, r) < #[trigger] ms[k].value_at(c, r)
                ||| ms[k].value_at(c, r) == 0 && ms[k + 1].value_at(c, r) == 0
            },
        forall|k: int, c: int, r: int|
            0 <= k < ms.len() && ms[0].in_grid(c, r) && k >= ms[0].value_at(c, r) ==> #[trigger] ms[k].value_at(
                c,
                r,
            ) == 0,
{
    assert forall|k: int, c: int, r: int|
        0 <= k < ms.len() - 1 && ms[0].in_grid(c, r) implies {
        ||| ms[k + 1].value_at(c, r) < #[trigger] ms[k].value_at(c, r)
        ||| ms[k].value_at(c, r) == 0 && ms[k + 1].value_at(c, r) == 0
    } by {
        lemma_cooled_after(ms, k);
        lemma_cooled_after(ms, k + 1);
    }
    assert forall|k: int, c: int, r: int|
        0 <= k < ms.len() && ms[0].in_grid(c, r) && k >= ms[0].value_at(
            c,
            r,
        ) implies #[trigger] ms[k].value_at(c, r) == 0 by {
        lemma_cooled_after(ms, k);
    }
}

/// A brush with positive scaled intensity set down on a cell's exact position gives
/// that cell its whole scaled intensity, and strictly more than any cell at a
/// positive distance from it.
pub proof fn lemma_brush_peaks_at_its_cell(
    m: HeatMap,
    column: int,
    row: int,
    other_column: int,
    other_row: int,
    heat: nat,
)
    requires
        m.intensity() * heat > 0,
        m.dist_sq(other_column, other_row, m.cell_x(column), m.cell_y(row)) > 0,
    ensures
        m.brush_heat(column, row, m.cell_x(column), m.cell_y(row), heat) == m.intensity() * heat,
        m.brush_heat(other_column, other_row, m.cell_x(column), m.cell_y(row), heat) < m.brush_heat(
            column,
            row,
            m.cell_x(column),
            m.cell_y(row),
            heat,
        ),
{
    let (x, y) = (m.cell_x(column), m.cell_y(row));
    assert(m.dist_sq(column, row, x, y) == 0);
    lemma_falloff_peaks_at_centre(
        m.intensity() * heat,
        m.radius() * heat + m.spacing(),
        m.dist_sq(other_column, other_row, x, y) as nat,
    );
}

/// A product of two `u32` values fits well within a `u64`.
proof fn lemma_u32_product(a: int, b: int)
    requires
        0 <= a <= u32::MAX,
        0 <= b <= u32::MAX,
    ensures
        0 <= a * b <= 0xffff_fffe_0000_0001,
{
    assert(0 <= a * b <= 0xffff_fffe_0000_0001) by (nonlinear_arith)
        requires
            0 <= a <= u32::MAX,
            0 <= b <= u32::MAX,
    ;
}

/// A column or row index below the last one stays below it once scaled.
proof fn lemma_scaled_below(index: int, last: int, spacing: int)
    requires
        0 <= index <= last,
        0 <= spacing,
    ensures
        index * spacing <= last * spacing,
{
    assert(index * spacing <= last * spacing) by (nonlinear_arith)
        requires
            0 <= index <= last,
            0 <= spacing,
    ;
}

/// The square of a difference is the square of its magnitude.
proof fn lemma_square_of_difference(a: int, b: int, magnitude: int)
    requires
        magnitude == a - b || magnitude == b - a,
    ensures
        magnitude * magnitude == (a - b) * (a - b),
{
    assert(magnitude * magnitude == (a - b) * (a - b)) by (nonlinear_arith)
        requires
            magnitude == a - b || magnitude == b - a,
    ;
}

/// The cells of a `width` by `height` grid occupy the positions below `width * height`.
proof fn lemma_cell_index_bound(width: int, height: int, column: int, row: int)
    requires
        0 <= column < width,
        0 <= row < height,
    ensures
        0 <= column * height + row < width * height,
{
    assert(0 <= column * height + row < width * height) by (nonlinear_arith)
        requires
            0 <= column < width,
            0 <= row < height,
    ;
}

/// Distinct cells occupy distinct positions.
proof fn lemma_cell_index_distinct(height: int, c1: int, r1: int, c2: int, r2: int)
    requires
        0 <= r1 < height,
        0 <= r2 < height,
        0 <= c1,
        0 <= c2,
        c1 != c2 || r1 != r2,
    ensures
        c1 * height + r1 != c2 * height + r2,
{
    if c1 < c2 {
        assert(c1 * height + height <= c2 * height) by (nonlinear_arith)
            requires
                c1 < c2,
                height > 0,
        ;
    } else if c2 < c1 {
        assert(c2 * height + height <= c1 * height) by (nonlinear_arith)
            requires
                c2 < c1,
                height > 0,
        ;
    }
}

} // verus!
