//! The integer rules that turn the fire, sparks, globs and star flares into
//! terminal cells.

use vstd::prelude::*;
use crate::field::{FireField, grid_index, capped, lemma_grid_index_bounds, lemma_grid_index_injective, HEAT_MAX};
use crate::palette::Rgb;

verus! {

/// One character cell of the terminal.
#[derive(Clone, Copy, Debug, PartialEq, Eq)]
pub struct Cell {
    pub ch: char,
    pub fg: Rgb,
    pub bg: Rgb,
    pub bold: bool,
}

/// Glyphs for the fire, from the faintest to the densest.
pub open spec fn fire_glyph_spec(level: int) -> char {
    if level <= 0 {
        ' '
    } else if level == 1 {
        '.'
    } else if level == 2 {
        ':'
    } else if level == 3 {
        '-'
    } else if level == 4 {
        '='
    } else if level == 5 {
        '+'
    } else if level == 6 {
        '*'
    } else if level == 7 {
        'o'
    } else if level == 8 {
        's'
    } else if level == 9 {
        'x'
    } else if level == 10 {
        'z'
    } else if level == 11 {
        '#'
    } else if level == 12 {
        'A'
    } else if level == 13 {
        '@'
    } else {
        '█'
    }
}

/// Number of fire glyphs.
pub const FIRE_GLYPHS: usize = 15;

/// The glyph level of a heat: heat `0..=HEAT_MAX` spread over the fire
/// glyphs, rounding down; heat above `HEAT_MAX` counts as `HEAT_MAX`.
pub open spec fn glyph_level(heat: u8) -> int {
    (capped(heat) as int * (FIRE_GLYPHS - 1)) / (HEAT_MAX as int)
}

/// The cell that shows fire of heat `heat` (heat above zero), coloured
/// from `palette`: bold once the heat is above 14.
pub open spec fn fire_cell_spec(heat: u8, palette: Seq<Rgb>) -> Cell {
    Cell {
        ch: fire_glyph_spec(glyph_level(heat)),
        fg: palette[capped(heat) as int],
        bg: (0, 0, 0),
        bold: capped(heat) > 14,
    }
}

/// The cell at `(x, y)` of a grid with `cols` columns.
pub open spec fn cell_at(grid: Seq<Cell>, cols: int, x: int, y: int) -> Cell {
    grid[grid_index(cols, x, y)]
}

/// Glyph of a fire level `0..FIRE_GLYPHS`.
pub fn fire_glyph(level: usize) -> (ch: char)
    requires
        level < FIRE_GLYPHS,
    ensures
        ch == fire_glyph_spec(level as int),
{
    match level {
        0 => ' ',
        1 => '.',
        2 => ':',
        3 => '-',
        4 => '=',
        5 => '+',
        6 => '*',
        7 => 'o',
        8 => 's',
        9 => 'x',
        10 => 'z',
        11 => '#',
        12 => 'A',
        13 => '@',
        _ => '█',
    }
}

/// The cell that shows fire of heat `heat`; see `fire_cell_spec`.
pub fn fire_cell(heat: u8, palette: &[Rgb; 36]) -> (c: Cell)
    requires
        heat > 0,
    ensures
        c == fire_cell_spec(heat, palette@),
{
    let h: usize = if heat > HEAT_MAX {
        HEAT_MAX as usize
    } else {
        heat as usize
    };
    let level: usize = (h * (FIRE_GLYPHS - 1)) / (HEAT_MAX as usize);
    Cell { ch: fire_glyph(level), fg: palette[h], bg: (0, 0, 0), bold: h > 14 }
}

/// Hotter fire never shows a fainter glyph.
pub proof fn lemma_glyph_level_monotone(a: u8, b: u8)
    requires
        a <= b,
    ensures
        0 <= glyph_level(a) <= glyph_level(b) < FIRE_GLYPHS,
{
    vstd::arithmetic::div_mod::lemma_div_is_ordered(
        capped(a) as int * 14,
        capped(b) as int * 14,
        35,
    );
}

/// The faintest fire shows the blank glyph and full blaze the solid block;
/// fire shows bold exactly when its heat is above 14.
pub proof fn lemma_fire_cell_extremes(palette: Seq<Rgb>, heat: u8)
    ensures
        glyph_level(0) == 0,
        glyph_level(HEAT_MAX) == FIRE_GLYPHS - 1,
        fire_cell_spec(HEAT_MAX, palette).ch == '█',
        fire_cell_spec(heat, palette).bold == (heat > 14),
        fire_cell_spec(heat, palette).bg == (0u8, 0u8, 0u8),
{
}

/// Paints the fire over the grid: every cell with heat above zero shows
/// its fire cell; cold cells, and cells past the field, are left as they
/// were.
pub fn draw_fire_layer(field: &FireField, palette: &[Rgb; 36], grid: &mut Vec<Cell>)
    requires
        field.wf(),
        old(grid)@.len() >= field.heat@.len(),
    ensures
        final(grid)@.len() == old(grid)@.len(),
        forall|i: int|
            0 <= i < old(grid)@.len() ==> #[trigger] final(grid)@[i] == if i < field.heat@.len()
                && field.heat@[i] > 0 {
                fire_cell_spec(field.heat@[i], palette@)
            } else {
                old(grid)@[i]
            },
{
    let n = field.heat.len();
    let mut i: usize = 0;
    while i < n
        invariant
            n == field.heat@.len(),
            i <= n,
            grid@.len() == old(grid)@.len(),
            n <= grid@.len(),
            forall|j: int|
                0 <= j < grid@.len() ==> #[trigger] grid@[j] == if j < i && field.heat@[j] > 0 {
                    fire_cell_spec(field.heat@[j], palette@)
                } else {
                    old(grid)@[j]
                },
        decreases n - i,
    {
        let h = field.heat[i];
        if h > 0 {
            grid.set(i, fire_cell(h, palette));
        }
        i = i + 1;
    }
}

/// Stores `cell` at `(x, y)` of a grid with `cols` columns and `rows` rows.
fn put(grid: &mut Vec<Cell>, cols: usize, rows: usize, x: usize, y: usize, cell: Cell)
    requires
        x < cols,
        y < rows,
        old(grid)@.len() >= cols * rows,
    ensures
        final(grid)@ == old(grid)@.update(grid_index(cols as int, x as int, y as int), cell),
        final(grid)@.len() == old(grid)@.len(),
        grid_index(cols as int, x as int, y as int) < cols * rows,
        forall|x2: int, y2: int|
            #![trigger cell_at(final(grid)@, cols as int, x2, y2)]
            0 <= x2 < cols && 0 <= y2 < rows ==> cell_at(final(grid)@, cols as int, x2, y2) == if x2
                == x && y2 == y {
                cell
            } else {
                cell_at(old(grid)@, cols as int, x2, y2)
            },
{
    proof {
        // a vector's length fits in usize, and so does any index below it
        assert(grid.len() == grid@.len());
        lemma_grid_index_bounds(cols as int, rows as int, x as int, y as int);
    }
    grid.set(y * cols + x, cell);
    proof {
        assert forall|x2: int, y2: int| 0 <= x2 < cols && 0 <= y2 < rows implies cell_at(
            grid@,
            cols as int,
            x2,
            y2,
        ) == if x2 == x && y2 == y {
            cell
        } else {
            cell_at(old(grid)@, cols as int, x2, y2)
        } by {
            lemma_grid_index_bounds(cols as int, rows as int, x2, y2);
            if grid_index(cols as int, x2, y2) == grid_index(cols as int, x as int, y as int) {
                lemma_grid_index_injective(cols as int, x2, y2, x as int, y as int);
            }
        }
    }
}

/// Puts `cell` at `(x, y)` when that position is on the grid; a position
/// off the grid leaves it unchanged. Returns whether the cell was placed.
pub fn place(grid: &mut Vec<Cell>, cols: usize, rows: usize, x: usize, y: usize, cell: Cell) -> (placed: bool)
    requires
        old(grid)@.len() >= cols * rows,
    ensures
        final(grid)@.len() == old(grid)@.len(),
        placed == (x < cols && y < rows),
        placed ==> final(grid)@ == old(grid)@.update(
            grid_index(cols as int, x as int, y as int),
            cell,
        ),
        !placed ==> final(grid)@ == old(grid)@,
{
    if x < cols && y < rows {
        put(grid, cols, rows, x, y, cell);
        true
    } else {
        false
    }
}

/// Whether `(px, py)`, in signed coordinates, is a position of a grid of
/// `cols` by `rows` cells.
pub open spec fn on_grid(px: int, py: int, cols: int, rows: int) -> bool {
    0 <= px < cols && 0 <= py < rows
}

/// Puts `cell` at the signed position `(px, py)` when it is on the grid.
pub fn place_signed(grid: &mut Vec<Cell>, cols: usize, rows: usize, px: i32, py: i32, cell: Cell)
    requires
        old(grid)@.len() >= cols * rows,
        cols <= i32::MAX,
        rows <= i32::MAX,
    ensures
        final(grid)@.len() == old(grid)@.len(),
        on_grid(px as int, py as int, cols as int, rows as int) ==> final(grid)@ == old(
            grid,
        )@.update(grid_index(cols as int, px as int, py as int), cell),
        !on_grid(px as int, py as int, cols as int, rows as int) ==> final(grid)@ == old(grid)@,
{
    if px >= 0 && px < cols as i32 && py >= 0 && py < rows as i32 {
        put(grid, cols, rows, px as usize, py as usize, cell);
    }
}

/// The bright core of a volcanic glob.
pub open spec fn glob_core() -> Cell {
    Cell { ch: '●', fg: (255, 255, 200), bg: (0, 0, 0), bold: true }
}

/// The glowing envelope around a glob's core.
pub open spec fn glob_envelope() -> Cell {
    Cell { ch: 'o', fg: (255, 130, 0), bg: (0, 0, 0), bold: true }
}

/// Draws a volcanic glob at `(gx, gy)`: its core there, and its envelope
/// on the four neighbouring positions, wherever these are on the grid.
pub fn draw_glob(grid: &mut Vec<Cell>, cols: usize, rows: usize, gx: i32, gy: i32)
    requires
        old(grid)@.len() >= cols * rows,
        cols <= i32::MAX,
        rows <= i32::MAX,
        i32::MIN < gx < i32::MAX,
        i32::MIN < gy < i32::MAX,
    ensures
        final(grid)@.len() == old(grid)@.len(),
        final(grid)@ == {
            let g0 = old(grid)@;
            let g1 = if on_grid(gx as int, gy as int, cols as int, rows as int) {
                g0.update(grid_index(cols as int, gx as int, gy as int), glob_core())
            } else {
                g0
            };
            let g2 = if on_grid(gx - 1, gy as int, cols as int, rows as int) {
                g1.update(grid_index(cols as int, gx - 1, gy as int), glob_envelope())
            } else {
                g1
            };
            let g3 = if on_grid(gx + 1, gy as int, cols as int, rows as int) {
                g2.update(grid_index(cols as int, gx + 1, gy as int), glob_envelope())
            } else {
                g2
            };
            let g4 = if on_grid(gx as int, gy - 1, cols as int, rows as int) {
                g3.update(grid_index(cols as int, gx as int, gy - 1), glob_envelope())
            } else {
                g3
            };
            if on_grid(gx as int, gy + 1, cols as int, rows as int) {
                g4.update(grid_index(cols as int, gx as int, gy + 1), glob_envelope())
            } else {
                g4
            }
        },
{
    let core = Cell { ch: '●', fg: (255, 255, 200), bg: (0, 0, 0), bold: true };
    let envelope = Cell { ch: 'o', fg: (255, 130, 0), bg: (0, 0, 0), bold: true };
    place_signed(grid, cols, rows, gx, gy, core);
    place_signed(grid, cols, rows, gx - 1, gy, envelope);
    place_signed(grid, cols, rows, gx + 1, gy, envelope);
    place_signed(grid, cols, rows, gx, gy - 1, envelope);
    place_signed(grid, cols, rows, gx, gy + 1, envelope);
}

/// Heat at or above which the fire hides a spark.
pub const SPARK_HIDING_HEAT: u8 = 10;

/// Draws a spark at `(sx, sy)` with glyph `ch`, colour `fg` and weight
/// `bold`, keeping the cell's background. The spark shows only on the
/// grid and where the fire there is below `SPARK_HIDING_HEAT`.
pub fn overlay_spark(field: &FireField, grid: &mut Vec<Cell>, sx: i32, sy: i32, ch: char, fg: Rgb, bold: bool)
    requires
        field.wf(),
        old(grid)@.len() >= field.heat@.len(),
        field.cols <= i32::MAX,
        field.rows <= i32::MAX,
    ensures
        ({
            let idx = grid_index(field.cols as int, sx as int, sy as int);
            if on_grid(sx as int, sy as int, field.cols as int, field.rows as int) && field.at(
                sx as int,
                sy as int,
            ) < SPARK_HIDING_HEAT {
                final(grid)@ == old(grid)@.update(
                    idx,
                    Cell { ch: ch, fg: fg, bg: old(grid)@[idx].bg, bold: bold },
                )
            } else {
                final(grid)@ == old(grid)@
            }
        }),
{
    if sx >= 0 && sx < field.cols as i32 && sy >= 0 && sy < field.rows as i32 {
        let x = sx as usize;
        let y = sy as usize;
        proof {
            // a vector's length fits in usize, and so does any index below it
            assert(field.heat.len() == field.heat@.len());
            lemma_grid_index_bounds(field.cols as int, field.rows as int, x as int, y as int);
        }
        let idx = y * field.cols + x;
        if field.heat[idx] < SPARK_HIDING_HEAT {
            let bg = grid[idx].bg;
            grid.set(idx, Cell { ch, fg, bg, bold });
        }
    }
}

/// Draws a star's cell at `(sx, sy)` where the position is on the field and
/// no fire burns there; returns whether it was drawn.
pub fn paint_star(field: &FireField, grid: &mut Vec<Cell>, sx: usize, sy: usize, cell: Cell) -> (drawn: bool)
    requires
        field.wf(),
        old(grid)@.len() >= field.heat@.len(),
    ensures
        final(grid)@.len() == old(grid)@.len(),
        drawn == (field.contains(sx as int, sy as int) && field.at(sx as int, sy as int) == 0),
        drawn ==> final(grid)@ == old(grid)@.update(
            grid_index(field.cols as int, sx as int, sy as int),
            cell,
        ),
        !drawn ==> final(grid)@ == old(grid)@,
{
    if sx < field.cols && sy < field.rows {
        if field.heat_at(sx, sy) == 0 {
            put(grid, field.cols, field.rows, sx, sy, cell);
            return true;
        }
    }
    false
}

/// Glyph of the horizontal streak of a lens flare.
pub const STREAK_H: char = '─';

/// Glyph of the vertical streak of a lens flare.
pub const STREAK_V: char = '│';

/// Length of the horizontal streak on each side of the star, the star
/// included.
pub const STREAK_H_LEN: usize = 12;

/// Length of the vertical streak on each side of the star, the star
/// included.
pub const STREAK_V_LEN: usize = 5;

/// Brightness lost per cell along the horizontal streak (`110 / 12`).
pub const STREAK_H_FALLOFF: u8 = 9;

/// Brightness lost per cell along the vertical streak (`80 / 5`).
pub const STREAK_V_FALLOFF: u8 = 16;

/// Brightness a streak cell must exceed to be drawn.
pub const STREAK_MIN_FADE: u8 = 10;

/// `a + b`, saturating at 255.
pub open spec fn sat_add(a: int, b: int) -> u8 {
    if a + b > 255 {
        255
    } else {
        (a + b) as u8
    }
}

/// Distance between two coordinates.
pub open spec fn dist(a: int, b: int) -> int {
    if a >= b {
        a - b
    } else {
        b - a
    }
}

/// The brightness of a streak `d` cells from its star, starting at
/// `alpha` and losing `falloff` per cell, never below zero.
pub open spec fn streak_fade(alpha: u8, falloff: u8, d: int) -> int {
    if alpha - falloff * d < 0 {
        0
    } else {
        alpha - falloff * d
    }
}

/// Colour of a streak cell of brightness `fade` for a flare of colour
/// `color`: the brightness plus four fifths of each channel of the colour
/// (three quarters of the brightness for green, and `lift` more for blue),
/// each saturating at 255.
pub open spec fn streak_color_spec(fade: int, color: Rgb, lift: int) -> Rgb {
    (
        sat_add(fade, (color.0 * 4) / 5),
        sat_add((fade * 3) / 4, (color.1 * 4) / 5),
        sat_add(sat_add(fade, lift) as int, (color.2 * 4) / 5),
    )
}

/// A cell that a streak may be drawn over: blank, or already showing that
/// streak's glyph.
pub open spec fn streak_may_cover(c: Cell, glyph: char) -> bool {
    c.ch == ' ' || c.ch == glyph
}

/// The cell `(x, y)` once the lens flare of the star at `(sx, sy)` has
/// been drawn over `grid` out to `hd` cells horizontally and `vd` cells
/// vertically. A streak cell is drawn where its brightness exceeds
/// `STREAK_MIN_FADE`, no fire burns and the cell may be covered; it takes
/// the streak's glyph and colour and keeps its background and weight.
pub open spec fn flare_cell(
    grid: Seq<Cell>,
    field: FireField,
    x: int,
    y: int,
    sx: int,
    sy: int,
    alpha_h: u8,
    alpha_v: u8,
    color: Rgb,
    hd: int,
    vd: int,
) -> Cell {
    let c = cell_at(grid, field.cols as int, x, y);
    let fh = streak_fade(alpha_h, STREAK_H_FALLOFF, dist(x, sx));
    let fv = streak_fade(alpha_v, STREAK_V_FALLOFF, dist(y, sy));
    if y == sy && x != sx && dist(x, sx) < hd && fh > STREAK_MIN_FADE && field.at(x, y) == 0
        && streak_may_cover(c, STREAK_H) {
        Cell { ch: STREAK_H, fg: streak_color_spec(fh, color, 45), bg: c.bg, bold: c.bold }
    } else if x == sx && y != sy && dist(y, sy) < vd && fv > STREAK_MIN_FADE && field.at(x, y)
        == 0 && streak_may_cover(c, STREAK_V) {
        Cell { ch: STREAK_V, fg: streak_color_spec(fv, color, 30), bg: c.bg, bold: c.bold }
    } else {
        c
    }
}

/// A lens flare only ever touches the star's row and column, never the
/// star's own cell, and never a cell where fire burns. In the row it
/// covers only blank cells or cells already showing the horizontal
/// streak, in the column only blank cells or cells already showing the
/// vertical one; a covered cell takes the streak's glyph and keeps its
/// background and weight. Conversely, within reach of the star, where the
/// streak is still bright enough, a blank cold cell is always covered.
pub proof fn lemma_flare_covers_only_free_cells(
    grid: Seq<Cell>,
    field: FireField,
    x: int,
    y: int,
    sx: int,
    sy: int,
    alpha_h: u8,
    alpha_v: u8,
    color: Rgb,
    hd: int,
    vd: int,
)
    ensures
        ({
            let c = cell_at(grid, field.cols as int, x, y);
            let n = flare_cell(grid, field, x, y, sx, sy, alpha_h, alpha_v, color, hd, vd);
            &&& n != c ==> {
                &&& field.at(x, y) == 0
                &&& n.bg == c.bg
                &&& n.bold == c.bold
                &&& (y == sy && x != sx && dist(x, sx) < hd && (c.ch == ' ' || c.ch == STREAK_H)
                    && n.ch == STREAK_H) || (x == sx && y != sy && dist(y, sy) < vd && (c.ch
                    == ' ' || c.ch == STREAK_V) && n.ch == STREAK_V)
            }
            &&& (x != sx && y != sy) || (x == sx && y == sy) ==> n == c
            &&& field.at(x, y) != 0 ==> n == c
            &&& x == sx && c.ch != ' ' && c.ch != STREAK_V ==> n == c
            &&& y == sy && c.ch != ' ' && c.ch != STREAK_H ==> n == c
            &&& y == sy && x != sx && dist(x, sx) < hd && streak_fade(
                alpha_h,
                STREAK_H_FALLOFF,
                dist(x, sx),
            ) > STREAK_MIN_FADE && field.at(x, y) == 0 && c.ch == ' ' ==> n.ch == STREAK_H
            &&& x == sx && y != sy && dist(y, sy) < vd && streak_fade(
                alpha_v,
                STREAK_V_FALLOFF,
                dist(y, sy),
            ) > STREAK_MIN_FADE && field.at(x, y) == 0 && c.ch == ' ' ==> n.ch == STREAK_V
        }),
{
}

/// A streak fades with distance from its star: one cell further out is
/// never brighter, and the brightness is never negative.
pub proof fn lemma_streak_fades(alpha: u8, falloff: u8, d: int, e: int)
    requires
        0 <= d <= e,
    ensures
        0 <= streak_fade(alpha, falloff, e) <= streak_fade(alpha, falloff, d) <= alpha,
{
    assert(falloff * d <= falloff * e) by (nonlinear_arith)
        requires
            0 <= d <= e,
            0 <= falloff,
    ;
    assert(0 <= falloff * d) by (nonlinear_arith)
        requires
            0 <= d,
            0 <= falloff,
    ;
}

/// Colour of a streak cell; see `streak_color_spec`.
fn streak_color(fade: u8, color: Rgb, lift: u8) -> (c: Rgb)
    ensures
        c == streak_color_spec(fade as int, color, lift as int),
{
    let r: u8 = ((color.0 as u16 * 4) / 5) as u8;
    let g: u8 = ((color.1 as u16 * 4) / 5) as u8;
    let b: u8 = ((color.2 as u16 * 4) / 5) as u8;
    let dim: u8 = ((fade as u16 * 3) / 4) as u8;
    (fade.saturating_add(r), dim.saturating_add(g), fade.saturating_add(lift).saturating_add(b))
}

/// Draws one cell of a streak at `(x, y)`: where no fire burns and the
/// cell may be covered, it takes `glyph` and `fg`.
fn streak(field: &FireField, grid: &mut Vec<Cell>, x: usize, y: usize, glyph: char, fg: Rgb)
    requires
        field.wf(),
        old(grid)@.len() >= field.heat@.len(),
        x < field.cols,
        y < field.rows,
    ensures
        final(grid)@.len() == old(grid)@.len(),
        forall|i: int|
            field.heat@.len() <= i < old(grid)@.len() ==> #[trigger] final(grid)@[i] == old(
                grid,
            )@[i],
        forall|x2: int, y2: int|
            #![trigger cell_at(final(grid)@, field.cols as int, x2, y2)]
            field.contains(x2, y2) ==> cell_at(final(grid)@, field.cols as int, x2, y2) == {
                let c = cell_at(old(grid)@, field.cols as int, x2, y2);
                if x2 == x && y2 == y && field.at(x2, y2) == 0 && streak_may_cover(c, glyph) {
                    Cell { ch: glyph, fg: fg, bg: c.bg, bold: c.bold }
                } else {
                    c
                }
            },
{
    proof {
        // a vector's length fits in usize, and so does any index below it
        assert(field.heat.len() == field.heat@.len());
        lemma_grid_index_bounds(field.cols as int, field.rows as int, x as int, y as int);
    }
    let c = grid[y * field.cols + x];
    if field.heat_at(x, y) == 0 && (c.ch == ' ' || c.ch == glyph) {
        put(grid, field.cols, field.rows, x, y, Cell { ch: glyph, fg, bg: c.bg, bold: c.bold });
    }
}

/// Draws the lens flare of a highly excited star at `(sx, sy)`, of colour
/// `color`: a horizontal streak starting at brightness `alpha_h` and a
/// vertical one starting at `alpha_v`, each fading with distance. See
/// `flare_cell` for which cells change and how; cells past the field are
/// left as they were.
pub fn draw_flare(
    field: &FireField,
    grid: &mut Vec<Cell>,
    sx: usize,
    sy: usize,
    alpha_h: u8,
    alpha_v: u8,
    color: Rgb,
)
    requires
        field.wf(),
        old(grid)@.len() >= field.heat@.len(),
        sx < field.cols,
        sy < field.rows,
    ensures
        final(grid)@.len() == old(grid)@.len(),
        forall|i: int|
            field.heat@.len() <= i < old(grid)@.len() ==> #[trigger] final(grid)@[i] == old(
                grid,
            )@[i],
        forall|x: int, y: int|
            #![trigger cell_at(final(grid)@, field.cols as int, x, y)]
            field.contains(x, y) ==> cell_at(final(grid)@, field.cols as int, x, y) == flare_cell(
                old(grid)@,
                *field,
                x,
                y,
                sx as int,
                sy as int,
                alpha_h,
                alpha_v,
                color,
                STREAK_H_LEN as int,
                STREAK_V_LEN as int,
            ),
{
    let mut dx: usize = 1;
    while dx < STREAK_H_LEN
        invariant
            1 <= dx <= STREAK_H_LEN,
            field.wf(),
            sx < field.cols,
            sy < field.rows,
            grid@.len() == old(grid)@.len(),
            old(grid)@.len() >= field.heat@.len(),
            forall|i: int|
                field.heat@.len() <= i < old(grid)@.len() ==> #[trigger] grid@[i] == old(grid)@[i],
            forall|x: int, y: int|
                #![trigger cell_at(grid@, field.cols as int, x, y)]
                field.contains(x, y) ==> cell_at(grid@, field.cols as int, x, y) == flare_cell(
                    old(grid)@,
                    *field,
                    x,
                    y,
                    sx as int,
                    sy as int,
                    alpha_h,
                    alpha_v,
                    color,
                    dx as int,
                    0,
                ),
        decreases STREAK_H_LEN - dx,
    {
        let fade: u8 = alpha_h.saturating_sub(dx as u8 * STREAK_H_FALLOFF);
        if fade > STREAK_MIN_FADE {
            let fg = streak_color(fade, color, 45);
            if dx < field.cols - sx {
                streak(field, grid, sx + dx, sy, STREAK_H, fg);
            }
            if sx >= dx {
                streak(field, grid, sx - dx, sy, STREAK_H, fg);
            }
        }
        dx = dx + 1;
    }
    let mut dy: usize = 1;
    while dy < STREAK_V_LEN
        invariant
            1 <= dy <= STREAK_V_LEN,
            field.wf(),
            sx < field.cols,
            sy < field.rows,
            grid@.len() == old(grid)@.len(),
            old(grid)@.len() >= field.heat@.len(),
            forall|i: int|
                field.heat@.len() <= i < old(grid)@.len() ==> #[trigger] grid@[i] == old(grid)@[i],
            forall|x: int, y: int|
                #![trigger cell_at(grid@, field.cols as int, x, y)]
                field.contains(x, y) ==> cell_at(grid@, field.cols as int, x, y) == flare_cell(
                    old(grid)@,
                    *field,
                    x,
                    y,
                    sx as int,
                    sy as int,
                    alpha_h,
                    alpha_v,
                    color,
                    STREAK_H_LEN as int,
                    dy as int,
                ),
        decreases STREAK_V_LEN - dy,
    {
        let fade: u8 = alpha_v.saturating_sub(dy as u8 * STREAK_V_FALLOFF);
        if fade > STREAK_MIN_FADE {
            let fg = streak_color(fade, color, 30);
            if dy < field.rows - sy {
                streak(field, grid, sx, sy + dy, STREAK_V, fg);
            }
            if sy >= dy {
                streak(field, grid, sx, sy - dy, STREAK_V, fg);
            }
        }
        dy = dy + 1;
    }
}

} // verus!
