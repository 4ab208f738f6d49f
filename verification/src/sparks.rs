//! Where sparks come from: the fire's columns, and the heat beneath the
//! logo.

use vstd::prelude::*;
use crate::field::{FireField, HEAT_MAX};

verus! {

/// How many rows below a logo cell count towards the heat it feels.
pub const LOGO_HEAT_DEPTH: usize = 12;

/// Whether a cell's heat can throw a spark: glowing, but not at full blaze.
pub open spec fn is_spark_fuel(heat: u8) -> bool {
    6 <= heat <= 24
}

/// The rows searched for a spark in a field of `rows` rows: the lower half,
/// above the two source rows at the bottom.
pub open spec fn in_spark_rows(rows: int, y: int) -> bool {
    rows / 2 <= y < rows - 2
}

/// Cold and faint cells (below 6) throw no sparks, and neither does fire
/// at full blaze (above 24); every level in between does.
pub proof fn lemma_spark_fuel_band(h: u8)
    ensures
        h < 6 ==> !is_spark_fuel(h),
        h > 24 ==> !is_spark_fuel(h),
        6 <= h <= 24 ==> is_spark_fuel(h),
{
}

/// Where a spark leaves column `x`: the lowest row among the searched rows
/// whose heat is spark fuel, or none when there is no such row.
pub fn spark_source_row(field: &FireField, x: usize) -> (found: Option<usize>)
    requires
        field.wf(),
        field.rows >= 2,
        field.rows / 2 < field.rows - 2 ==> x < field.cols,
    ensures
        match found {
            Some(y) => {
                &&& in_spark_rows(field.rows as int, y as int)
                &&& is_spark_fuel(field.at(x as int, y as int))
                &&& forall|y2: int|
                    y < y2 < field.rows - 2 ==> !is_spark_fuel(#[trigger] field.at(x as int, y2))
            },
            None => forall|y2: int|
                in_spark_rows(field.rows as int, y2) ==> !is_spark_fuel(
                    #[trigger] field.at(x as int, y2),
                ),
        },
{
    let low = field.rows / 2;
    let mut y = field.rows - 2;
    while y > low
        invariant
            field.wf(),
            field.rows >= 2,
            low == field.rows / 2,
            low <= y <= field.rows - 2 || (y == field.rows - 2 && field.rows - 2 < low),
            y > low ==> x < field.cols,
            forall|y2: int| y <= y2 < field.rows - 2 ==> !is_spark_fuel(#[trigger] field.at(x as int, y2)),
        decreases y,
    {
        y = y - 1;
        let h = field.heat_at(x, y);
        if 6 <= h && h <= 24 {
            return Some(y);
        }
    }
    None
}

/// Total heat of the `depth` cells below `(x, y)` that lie in the field.
pub open spec fn heat_below(field: FireField, x: int, y: int, depth: int) -> int
    decreases depth,
{
    if depth <= 0 {
        0
    } else {
        heat_below(field, x, y, depth - 1) + if y + depth < field.rows {
            field.at(x, y + depth) as int
        } else {
            0
        }
    }
}

proof fn lemma_heat_below_bounded(field: FireField, x: int, y: int, depth: int)
    requires
        field.wf(),
        0 <= x < field.cols,
        0 <= y,
        0 <= depth,
    ensures
        0 <= heat_below(field, x, y, depth) <= depth * HEAT_MAX,
    decreases depth,
{
    if depth > 0 {
        lemma_heat_below_bounded(field, x, y, depth - 1);
        if y + depth < field.rows {
            crate::field::lemma_grid_index_bounds(
                field.cols as int,
                field.rows as int,
                x,
                y + depth,
            );
        }
    }
}

/// The heat below a cell depends only on the cells of its column within
/// `depth` rows beneath it that lie in the field: two fields that agree on
/// those cells give the same total.
pub proof fn lemma_heat_below_local(f: FireField, g: FireField, x: int, y: int, depth: int)
    requires
        f.rows == g.rows,
        forall|d: int|
            1 <= d <= depth && y + d < f.rows ==> #[trigger] f.at(x, y + d) == g.at(x, y + d),
    ensures
        heat_below(f, x, y, depth) == heat_below(g, x, y, depth),
    decreases depth,
{
    if depth > 0 {
        lemma_heat_below_local(f, g, x, y, depth - 1);
    }
}

/// The heat below a cell is a plain sum: raising one of the cells beneath
/// it (within `depth` rows and inside the field) by some amount raises the
/// total by that amount, whatever the other cells hold.
pub proof fn lemma_heat_below_additive(f: FireField, g: FireField, x: int, y: int, depth: int, j: int)
    requires
        f.rows == g.rows,
        1 <= j <= depth,
        y + j < f.rows,
        forall|d: int|
            1 <= d <= depth && d != j && y + d < f.rows ==> #[trigger] f.at(x, y + d) == g.at(
                x,
                y + d,
            ),
    ensures
        heat_below(g, x, y, depth) - heat_below(f, x, y, depth) == g.at(x, y + j) - f.at(x, y + j),
    decreases depth,
{
    if depth == j {
        lemma_heat_below_local(f, g, x, y, depth - 1);
    } else {
        lemma_heat_below_additive(f, g, x, y, depth - 1, j);
    }
}

/// A cell with no heat in the `depth` cells beneath it feels none.
pub proof fn lemma_heat_below_cold(f: FireField, x: int, y: int, depth: int)
    requires
        forall|d: int| 1 <= d <= depth && y + d < f.rows ==> #[trigger] f.at(x, y + d) == 0,
    ensures
        heat_below(f, x, y, depth) == 0,
    decreases depth,
{
    if depth > 0 {
        lemma_heat_below_cold(f, x, y, depth - 1);
    }
}

/// The heat that a logo cell at `(x, y)` feels: the total heat of the
/// `LOGO_HEAT_DEPTH` cells beneath it that lie in the field.
pub fn column_heat(field: &FireField, x: usize, y: usize) -> (total: u32)
    requires
        field.wf(),
        x < field.cols,
        y < field.rows,
    ensures
        total == heat_below(*field, x as int, y as int, LOGO_HEAT_DEPTH as int),
        total <= LOGO_HEAT_DEPTH * HEAT_MAX,
{
    let mut total: u32 = 0;
    let mut dy: usize = 1;
    while dy <= LOGO_HEAT_DEPTH
        invariant
            field.wf(),
            x < field.cols,
            y < field.rows,
            1 <= dy <= LOGO_HEAT_DEPTH + 1,
            total == heat_below(*field, x as int, y as int, dy - 1),
        decreases LOGO_HEAT_DEPTH + 1 - dy,
    {
        proof {
            lemma_heat_below_bounded(*field, x as int, y as int, dy as int);
        }
        if dy < field.rows - y {
            total = total + field.heat_at(x, y + dy) as u32;
        }
        dy = dy + 1;
    }
    proof {
        lemma_heat_below_bounded(*field, x as int, y as int, LOGO_HEAT_DEPTH as int);
    }
    total
}

} // verus!
