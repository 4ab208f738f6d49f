//! The fire itself: a row-major grid of heat levels `0..=HEAT_MAX`, with
//! the operations of one step of the cellular automaton. Heat is fed in
//! at the bottom and rises one row per step, cooling as it goes.

use vstd::prelude::*;

verus! {

/// The hottest heat level; it indexes the last entry of the heat ramp.
pub const HEAT_MAX: u8 = 35;

/// Radius, in cells, of the disc that an exploding glob sets ablaze.
pub const SCORCH_RADIUS: i32 = 4;

/// Position of cell `(x, y)` in a row-major grid with `cols` columns.
pub open spec fn grid_index(cols: int, x: int, y: int) -> int {
    y * cols + x
}

/// Whether `(x, y)` lies in the scorch disc centred on `(cx, cy)`.
pub open spec fn in_scorch_disc(x: int, y: int, cx: int, cy: int) -> bool {
    (x - cx) * (x - cx) + (y - cy) * (y - cy) <= SCORCH_RADIUS * SCORCH_RADIUS
}

/// The column that heat rising from column `x` drifts to: `x + offset`,
/// kept inside `0..cols`.
pub open spec fn drift_column(x: int, offset: int, cols: int) -> int {
    if x + offset < 0 {
        0
    } else if x + offset > cols - 1 {
        cols - 1
    } else {
        x + offset
    }
}

/// The heat that arrives one row up from a cell of heat `src` when it
/// cools by `decay`: a cold cell stays cold, a hot one loses at least one
/// level.
pub open spec fn cooled(src: u8, decay: u8) -> u8 {
    if src == 0 {
        0
    } else {
        let d: int = if decay == 0 { 1 } else { decay as int };
        if src - d < 0 {
            0
        } else {
            (src - d) as u8
        }
    }
}

/// `level` capped at `HEAT_MAX`.
pub open spec fn capped(level: u8) -> u8 {
    if level > HEAT_MAX {
        HEAT_MAX
    } else {
        level
    }
}

/// Which part of the fire a row is in, by its height above the bottom row
/// as a fraction of the field's height: above 65%, above 40%, or lower.
/// Higher rows cool faster.
#[derive(Clone, Copy, Debug, PartialEq, Eq)]
pub enum DecayBand {
    Upper,
    Middle,
    Lower,
}

/// The band of row `y` in a field of `rows` rows.
pub open spec fn band_of_row(rows: int, y: int) -> DecayBand {
    let height = rows - 1 - y;
    if 20 * height > 13 * rows {
        DecayBand::Upper
    } else if 5 * height > 2 * rows {
        DecayBand::Middle
    } else {
        DecayBand::Lower
    }
}

/// Every cell of a `cols` by `rows` grid has a position below `cols * rows`.
pub proof fn lemma_grid_index_bounds(cols: int, rows: int, x: int, y: int)
    requires
        0 <= x < cols,
        0 <= y < rows,
    ensures
        0 <= grid_index(cols, x, y) < cols * rows,
        grid_index(cols, x, y) + 1 <= cols * rows,
{
    assert(0 <= y * cols) by (nonlinear_arith)
        requires
            0 <= y,
            0 <= cols,
    ;
    assert(y * cols + x < cols * rows) by (nonlinear_arith)
        requires
            0 <= x < cols,
            0 <= y < rows,
    ;
}

/// Distinct cells of a grid have distinct positions.
pub proof fn lemma_grid_index_injective(cols: int, x1: int, y1: int, x2: int, y2: int)
    requires
        0 <= x1 < cols,
        0 <= x2 < cols,
        0 <= y1,
        0 <= y2,
        grid_index(cols, x1, y1) == grid_index(cols, x2, y2),
    ensures
        x1 == x2,
        y1 == y2,
{
    if y1 < y2 {
        assert(y1 * cols + cols <= y2 * cols) by (nonlinear_arith)
            requires
                y1 < y2,
                0 <= cols,
        ;
    } else if y2 < y1 {
        assert(y2 * cols + cols <= y1 * cols) by (nonlinear_arith)
            requires
                y2 < y1,
                0 <= cols,
        ;
    }
}

/// Fed heat never exceeds `HEAT_MAX`, and heat up to `HEAT_MAX` is kept
/// as it is.
pub proof fn lemma_capped_keeps_range(level: u8)
    ensures
        capped(level) <= HEAT_MAX,
        level <= HEAT_MAX ==> capped(level) == level,
        level > HEAT_MAX ==> capped(level) == HEAT_MAX,
        capped(level) <= level,
{
}

/// The scorch disc is centred on its centre: it holds the centre and the
/// four cells `SCORCH_RADIUS` away along the axes, is symmetric under
/// mirroring either axis, and reaches no further than `SCORCH_RADIUS`
/// along either axis; the cells diagonally 3 away are outside it.
pub proof fn lemma_scorch_disc_shape(x: int, y: int, cx: int, cy: int)
    ensures
        in_scorch_disc(cx, cy, cx, cy),
        in_scorch_disc(cx + SCORCH_RADIUS, cy, cx, cy),
        in_scorch_disc(cx - SCORCH_RADIUS, cy, cx, cy),
        in_scorch_disc(cx, cy + SCORCH_RADIUS, cx, cy),
        in_scorch_disc(cx, cy - SCORCH_RADIUS, cx, cy),
        !in_scorch_disc(cx + 3, cy + 3, cx, cy),
        in_scorch_disc(x, y, cx, cy) == in_scorch_disc(2 * cx - x, y, cx, cy),
        in_scorch_disc(x, y, cx, cy) == in_scorch_disc(x, 2 * cy - y, cx, cy),
        in_scorch_disc(x, y, cx, cy) ==> -SCORCH_RADIUS <= x - cx <= SCORCH_RADIUS
            && -SCORCH_RADIUS <= y - cy <= SCORCH_RADIUS,
{
    assert((cx - SCORCH_RADIUS - cx) * (cx - SCORCH_RADIUS - cx) == 16) by (nonlinear_arith);
    assert((cy - SCORCH_RADIUS - cy) * (cy - SCORCH_RADIUS - cy) == 16) by (nonlinear_arith);
    assert((cx + 3 - cx) * (cx + 3 - cx) == 9) by (nonlinear_arith);
    assert((cy + 3 - cy) * (cy + 3 - cy) == 9) by (nonlinear_arith);
    assert((2 * cx - x - cx) * (2 * cx - x - cx) == (x - cx) * (x - cx)) by (nonlinear_arith);
    assert((2 * cy - y - cy) * (2 * cy - y - cy) == (y - cy) * (y - cy)) by (nonlinear_arith);
    if in_scorch_disc(x, y, cx, cy) {
        lemma_disc_extent(x - cx, y - cy);
    }
}

/// Rows nearer the top never fall in a band that cools more slowly: the
/// band only moves from upper through middle to lower going down. The
/// bottom row is always in the lower band.
pub proof fn lemma_band_order(rows: int, y1: int, y2: int)
    requires
        0 <= y1 <= y2 < rows,
    ensures
        band_of_row(rows, y1) == DecayBand::Lower ==> band_of_row(rows, y2) == DecayBand::Lower,
        band_of_row(rows, y2) == DecayBand::Upper ==> band_of_row(rows, y1) == DecayBand::Upper,
        band_of_row(rows, rows - 1) == DecayBand::Lower,
{
}

proof fn lemma_disc_extent(a: int, b: int)
    requires
        a * a + b * b <= 16,
    ensures
        -4 <= a <= 4,
        -4 <= b <= 4,
{
    assert(-4 <= a <= 4 && -4 <= b <= 4) by (nonlinear_arith)
        requires
            a * a + b * b <= 16,
    ;
}

/// Heat rising from a hot cell always arrives cooler than it left, and a
/// cold cell passes on no heat; neither ever exceeds the source.
pub proof fn lemma_rising_heat_cools(src: u8, decay: u8)
    ensures
        src > 0 ==> cooled(src, decay) < src,
        src == 0 ==> cooled(src, decay) == 0,
        cooled(src, decay) <= src,
{
}

/// Heat that rises from a hot cell loses exactly its decay (at least one
/// level) unless that would take it below zero, where it stops at zero.
/// Hotter sources and smaller decays never give less heat.
pub proof fn lemma_cooling_amount(src: u8, decay: u8, src2: u8, decay2: u8)
    ensures
        src > 0 && decay >= 1 ==> cooled(src, decay) == 0 || cooled(src, decay) + decay == src,
        src > 0 && decay >= 1 && decay <= src ==> cooled(src, decay) + decay == src,
        src > 0 && decay == 0 ==> cooled(src, decay) + 1 == src,
        src <= src2 && decay2 <= decay && (decay2 >= 1 || decay == 0) ==> cooled(src, decay)
            <= cooled(src2, decay2),
{
}

/// Rising heat drifts to column `x + offset` when that lies in the field,
/// and otherwise stays at the nearest edge: the last column past the right
/// edge, the first past the left. A larger offset never drifts further
/// left.
pub proof fn lemma_drift_column_clamps(x: int, offset: int, offset2: int, cols: int)
    requires
        cols > 0,
    ensures
        0 <= drift_column(x, offset, cols) < cols,
        0 <= x + offset < cols ==> drift_column(x, offset, cols) == x + offset,
        x + offset >= cols ==> drift_column(x, offset, cols) == cols - 1,
        x + offset < 0 ==> drift_column(x, offset, cols) == 0,
        offset <= offset2 ==> drift_column(x, offset, cols) <= drift_column(x, offset2, cols),
{
}

/// The grid of heat levels of the fire.
pub struct FireField {
    pub cols: usize,
    pub rows: usize,
    /// Row-major heat levels, `cols * rows` of them.
    pub heat: Vec<u8>,
}

impl FireField {
    /// The field holds one level per cell, none above `HEAT_MAX`.
    pub open spec fn wf(&self) -> bool {
        &&& self.heat@.len() == self.cols * self.rows
        &&& forall|i: int| 0 <= i < self.heat@.len() ==> #[trigger] self.heat@[i] <= HEAT_MAX
    }

    /// Heat level of cell `(x, y)`.
    pub open spec fn at(&self, x: int, y: int) -> u8 {
        self.heat@[grid_index(self.cols as int, x, y)]
    }

    /// Whether `(x, y)` is a cell of the field.
    pub open spec fn contains(&self, x: int, y: int) -> bool {
        0 <= x < self.cols && 0 <= y < self.rows
    }

    /// A cold field of `cols` by `rows` cells.
    pub fn new(cols: usize, rows: usize) -> (f: FireField)
        requires
            cols * rows <= usize::MAX,
        ensures
            f.wf(),
            f.cols == cols,
            f.rows == rows,
            forall|i: int| 0 <= i < f.heat@.len() ==> #[trigger] f.heat@[i] == 0,
    {
        let n: usize = cols * rows;
        let mut heat: Vec<u8> = Vec::new();
        let mut i: usize = 0;
        while i < n
            invariant
                i <= n,
                heat@.len() == i,
                forall|j: int| 0 <= j < i ==> #[trigger] heat@[j] == 0,
            decreases n - i,
        {
            heat.push(0);
            i = i + 1;
        }
        FireField { cols, rows, heat }
    }

    /// Heat level of cell `(x, y)`.
    pub fn heat_at(&self, x: usize, y: usize) -> (h: u8)
        requires
            self.wf(),
            x < self.cols,
            y < self.rows,
        ensures
            h == self.at(x as int, y as int),
            h <= HEAT_MAX,
    {
        proof {
            // a vector's length fits in usize, and so does any index below it
            assert(self.heat.len() == self.heat@.len());
            lemma_grid_index_bounds(self.cols as int, self.rows as int, x as int, y as int);
        }
        self.heat[y * self.cols + x]
    }

    /// Stores `level` in cell `(x, y)`.
    fn set_cell(&mut self, x: usize, y: usize, level: u8)
        requires
            old(self).wf(),
            x < old(self).cols,
            y < old(self).rows,
            level <= HEAT_MAX,
        ensures
            final(self).wf(),
            final(self).cols == old(self).cols,
            final(self).rows == old(self).rows,
            final(self).heat@ == old(self).heat@.update(
                grid_index(old(self).cols as int, x as int, y as int),
                level,
            ),
            forall|x2: int, y2: int|
                #![trigger final(self).at(x2, y2)]
                old(self).contains(x2, y2) ==> final(self).at(x2, y2) == if x2 == x && y2 == y {
                    level
                } else {
                    old(self).at(x2, y2)
                },
    {
        proof {
            // a vector's length fits in usize, and so does any index below it
            assert(self.heat.len() == self.heat@.len());
            lemma_grid_index_bounds(self.cols as int, self.rows as int, x as int, y as int);
        }
        let i = y * self.cols + x;
        self.heat.set(i, level);
        proof {
            let cols = self.cols as int;
            assert forall|x2: int, y2: int| old(self).contains(x2, y2) implies self.at(x2, y2)
                == if x2 == x && y2 == y {
                level
            } else {
                old(self).at(x2, y2)
            } by {
                lemma_grid_index_bounds(cols, self.rows as int, x2, y2);
                if grid_index(cols, x2, y2) == grid_index(cols, x as int, y as int) {
                    lemma_grid_index_injective(cols, x2, y2, x as int, y as int);
                }
            }
        }
    }

    /// Feeds heat into cell `(x, y)`: its level becomes `level`, capped at
    /// `HEAT_MAX`. This is how the source rows at the bottom of the fire
    /// are kept burning.
    pub fn kindle(&mut self, x: usize, y: usize, level: u8)
        requires
            old(self).wf(),
            x < old(self).cols,
            y < old(self).rows,
        ensures
            final(self).wf(),
            final(self).cols == old(self).cols,
            final(self).rows == old(self).rows,
            final(self).heat@ == old(self).heat@.update(
                grid_index(old(self).cols as int, x as int, y as int),
                capped(level),
            ),
    {
        let v: u8 = if level > HEAT_MAX {
            HEAT_MAX
        } else {
            level
        };
        self.set_cell(x, y, v);
    }

    /// Sets a plume of fire ablaze: the columns `flare_x..flare_x + flare_width`
    /// that lie inside the field, over the bottom three rows, go to
    /// `HEAT_MAX`. Every other cell keeps its heat.
    pub fn ignite_plume(&mut self, flare_x: usize, flare_width: usize)
        requires
            old(self).wf(),
            old(self).rows >= 3,
            flare_x + flare_width <= usize::MAX,
        ensures
            final(self).wf(),
            final(self).cols == old(self).cols,
            final(self).rows == old(self).rows,
            final(self).heat@.len() == old(self).heat@.len(),
            forall|x: int, y: int|
                #![trigger final(self).at(x, y)]
                old(self).contains(x, y) ==> final(self).at(x, y) == if flare_x <= x < flare_x
                    + flare_width && old(self).rows - 3 <= y {
                    HEAT_MAX
                } else {
                    old(self).at(x, y)
                },
    {
        let bottom_row = self.rows - 1;
        let mut dx: usize = 0;
        while dx < flare_width
            invariant
                dx <= flare_width,
                flare_x + flare_width <= usize::MAX,
                self.wf(),
                self.cols == old(self).cols,
                self.rows == old(self).rows,
                self.rows >= 3,
                bottom_row == self.rows - 1,
                forall|x2: int, y2: int|
                    #![trigger self.at(x2, y2)]
                    old(self).contains(x2, y2) ==> self.at(x2, y2) == if flare_x <= x2 < flare_x
                        + dx && old(self).rows - 3 <= y2 {
                        HEAT_MAX
                    } else {
                        old(self).at(x2, y2)
                    },
            decreases flare_width - dx,
        {
            let x = flare_x + dx;
            if x < self.cols {
                let mut dy: usize = 0;
                while dy < 3
                    invariant
                        dy <= 3,
                        dx < flare_width,
                        x == flare_x + dx,
                        x < self.cols,
                        self.wf(),
                        self.cols == old(self).cols,
                        self.rows == old(self).rows,
                        self.rows >= 3,
                        bottom_row == self.rows - 1,
                        forall|x2: int, y2: int|
                            #![trigger self.at(x2, y2)]
                            old(self).contains(x2, y2) ==> self.at(x2, y2) == if (flare_x <= x2
                                < flare_x + dx && old(self).rows - 3 <= y2) || (x2 == x
                                && old(self).rows - dy <= y2) {
                                HEAT_MAX
                            } else {
                                old(self).at(x2, y2)
                            },
                    decreases 3 - dy,
                {
                    let y = bottom_row - dy;
                    self.set_cell(x, y, HEAT_MAX);
                    dy = dy + 1;
                }
            }
            dx = dx + 1;
        }
    }

    /// Heat rises from cell `(x, y)` to the row above. It drifts sideways
    /// by `offset` columns (kept inside the field) and cools by `decay`
    /// (at least one level); a cold cell leaves the destination cold.
    /// Only the destination cell changes.
    pub fn rise(&mut self, x: usize, y: usize, offset: i32, decay: u8)
        requires
            old(self).wf(),
            x < old(self).cols,
            1 <= y < old(self).rows,
            old(self).cols <= i32::MAX,
            i32::MIN <= x + offset <= i32::MAX,
        ensures
            final(self).wf(),
            final(self).cols == old(self).cols,
            final(self).rows == old(self).rows,
            final(self).heat@ == old(self).heat@.update(
                grid_index(
                    old(self).cols as int,
                    drift_column(x as int, offset as int, old(self).cols as int),
                    y - 1,
                ),
                cooled(old(self).at(x as int, y as int), decay),
            ),
    {
        let src = self.heat_at(x, y);
        let shifted: i32 = x as i32 + offset;
        let last: i32 = self.cols as i32 - 1;
        let dst: i32 = if shifted < 0 {
            0
        } else if shifted > last {
            last
        } else {
            shifted
        };
        let d: u8 = if decay == 0 {
            1
        } else {
            decay
        };
        let level: u8 = if src == 0 {
            0
        } else {
            src.saturating_sub(d)
        };
        self.set_cell(dst as usize, y - 1, level);
    }

    /// An exploding glob centred on `(cx, cy)` sets every cell of the field
    /// within `SCORCH_RADIUS` of the centre to `HEAT_MAX`; every other cell
    /// keeps its heat.
    pub fn scorch(&mut self, cx: i32, cy: i32)
        requires
            old(self).wf(),
            old(self).cols <= i32::MAX,
            old(self).rows <= i32::MAX,
            i32::MIN + SCORCH_RADIUS <= cx <= i32::MAX - SCORCH_RADIUS,
            i32::MIN + SCORCH_RADIUS <= cy <= i32::MAX - SCORCH_RADIUS,
        ensures
            final(self).wf(),
            final(self).cols == old(self).cols,
            final(self).rows == old(self).rows,
            final(self).heat@.len() == old(self).heat@.len(),
            forall|x: int, y: int|
                #![trigger final(self).at(x, y)]
                old(self).contains(x, y) ==> final(self).at(x, y) == if in_scorch_disc(
                    x,
                    y,
                    cx as int,
                    cy as int,
                ) {
                    HEAT_MAX
                } else {
                    old(self).at(x, y)
                },
    {
        let cols_i: i32 = self.cols as i32;
        let rows_i: i32 = self.rows as i32;
        let mut dy: i32 = -SCORCH_RADIUS;
        proof {
            assert forall|x2: int, y2: int|
                old(self).contains(x2, y2) && in_scorch_disc(x2, y2, cx as int, cy as int)
                    implies -SCORCH_RADIUS <= y2 - cy by {
                lemma_disc_extent(x2 - cx, y2 - cy);
            }
        }
        while dy <= SCORCH_RADIUS
            invariant
                -SCORCH_RADIUS <= dy <= SCORCH_RADIUS + 1,
                i32::MIN + SCORCH_RADIUS <= cx <= i32::MAX - SCORCH_RADIUS,
                i32::MIN + SCORCH_RADIUS <= cy <= i32::MAX - SCORCH_RADIUS,
                self.wf(),
                self.cols == old(self).cols,
                self.rows == old(self).rows,
                cols_i == self.cols,
                rows_i == self.rows,
                forall|x2: int, y2: int|
                    #![trigger self.at(x2, y2)]
                    old(self).contains(x2, y2) ==> self.at(x2, y2) == if in_scorch_disc(
                        x2,
                        y2,
                        cx as int,
                        cy as int,
                    ) && y2 - cy < dy {
                        HEAT_MAX
                    } else {
                        old(self).at(x2, y2)
                    },
            decreases SCORCH_RADIUS + 1 - dy,
        {
            let mut dx: i32 = -SCORCH_RADIUS;
            proof {
                assert forall|x2: int, y2: int|
                    old(self).contains(x2, y2) && in_scorch_disc(x2, y2, cx as int, cy as int)
                        implies -SCORCH_RADIUS <= x2 - cx by {
                    lemma_disc_extent(x2 - cx, y2 - cy);
                }
            }
            while dx <= SCORCH_RADIUS
                invariant
                    -SCORCH_RADIUS <= dy <= SCORCH_RADIUS,
                    -SCORCH_RADIUS <= dx <= SCORCH_RADIUS + 1,
                    i32::MIN + SCORCH_RADIUS <= cx <= i32::MAX - SCORCH_RADIUS,
                    i32::MIN + SCORCH_RADIUS <= cy <= i32::MAX - SCORCH_RADIUS,
                    self.wf(),
                    self.cols == old(self).cols,
                    self.rows == old(self).rows,
                    cols_i == self.cols,
                    rows_i == self.rows,
                    forall|x2: int, y2: int|
                        #![trigger self.at(x2, y2)]
                        old(self).contains(x2, y2) ==> self.at(x2, y2) == if in_scorch_disc(
                            x2,
                            y2,
                            cx as int,
                            cy as int,
                        ) && (y2 - cy < dy || (y2 - cy == dy && x2 - cx < dx)) {
                            HEAT_MAX
                        } else {
                            old(self).at(x2, y2)
                        },
                decreases SCORCH_RADIUS + 1 - dx,
            {
                let px: i32 = cx + dx;
                let py: i32 = cy + dy;
                assert(0 <= dx * dx <= 16 && 0 <= dy * dy <= 16) by (nonlinear_arith)
                    requires
                        -4 <= dx <= 4,
                        -4 <= dy <= 4,
                ;
                let inside: bool = dx * dx + dy * dy <= SCORCH_RADIUS * SCORCH_RADIUS;
                if px >= 0 && px < cols_i && py >= 0 && py < rows_i && inside {
                    self.set_cell(px as usize, py as usize, HEAT_MAX);
                }
                dx = dx + 1;
            }
            proof {
                assert forall|x2: int, y2: int|
                    old(self).contains(x2, y2) && in_scorch_disc(x2, y2, cx as int, cy as int)
                        implies x2 - cx <= SCORCH_RADIUS by {
                    lemma_disc_extent(x2 - cx, y2 - cy);
                }
            }
            dy = dy + 1;
        }
        proof {
            assert forall|x2: int, y2: int|
                old(self).contains(x2, y2) && in_scorch_disc(x2, y2, cx as int, cy as int)
                    implies y2 - cy <= SCORCH_RADIUS by {
                lemma_disc_extent(x2 - cx, y2 - cy);
            }
        }
    }
}

/// The band of row `y` in a field of `rows` rows; see `band_of_row`.
pub fn decay_band(rows: usize, y: usize) -> (band: DecayBand)
    requires
        y < rows,
    ensures
        band == band_of_row(rows as int, y as int),
{
    let height: u128 = (rows - 1 - y) as u128;
    let r: u128 = rows as u128;
    if 20 * height > 13 * r {
        DecayBand::Upper
    } else if 5 * height > 2 * r {
        DecayBand::Middle
    } else {
        DecayBand::Lower
    }
}

} // verus!
