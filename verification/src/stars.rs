//! How many background stars the sky holds, and how each one looks.

use vstd::prelude::*;

verus! {

/// Fewest stars the sky aims for.
pub const MIN_STARS: usize = 10;

/// Most stars the sky aims for.
pub const MAX_STARS: usize = 80;

/// One star for every this many cells.
pub const CELLS_PER_STAR: usize = 20;

/// The star capacity of a `cols` by `rows` sky: one star per
/// `CELLS_PER_STAR` cells, between `MIN_STARS` and `MAX_STARS`.
pub open spec fn star_quota_spec(cols: int, rows: int) -> int {
    let n = (cols * rows) / (CELLS_PER_STAR as int);
    if n < MIN_STARS {
        MIN_STARS as int
    } else if n > MAX_STARS {
        MAX_STARS as int
    } else {
        n
    }
}

/// The sky holds between `MIN_STARS` and `MAX_STARS` stars, never fewer
/// for a larger screen, and one per `CELLS_PER_STAR` cells in between.
pub proof fn lemma_star_quota_bounds(cols: int, rows: int, cols2: int, rows2: int)
    requires
        0 <= cols <= cols2,
        0 <= rows <= rows2,
    ensures
        MIN_STARS <= star_quota_spec(cols, rows) <= MAX_STARS,
        star_quota_spec(cols, rows) <= star_quota_spec(cols2, rows2),
        MIN_STARS * CELLS_PER_STAR <= cols * rows < (MAX_STARS + 1) * CELLS_PER_STAR ==> star_quota_spec(cols, rows)
            * CELLS_PER_STAR <= cols * rows < (star_quota_spec(cols, rows) + 1) * CELLS_PER_STAR,
{
    assert(cols * rows <= cols2 * rows2) by (nonlinear_arith)
        requires
            0 <= cols <= cols2,
            0 <= rows <= rows2,
    ;
    vstd::arithmetic::div_mod::lemma_div_is_ordered(cols * rows, cols2 * rows2, 20);
    vstd::arithmetic::div_mod::lemma_fundamental_div_mod(cols * rows, 20);
}

/// The glyphs of successive stars repeat every 21 stars, and each is one of
/// the three star glyphs.
pub proof fn lemma_star_glyph_cycle(n: int)
    requires
        0 <= n,
    ensures
        star_glyph_spec(n) == star_glyph_spec(n + 21),
        star_glyph_spec(n) == '✦' || star_glyph_spec(n) == '•' || star_glyph_spec(n) == '.',
        star_glyph_spec(7 * n) == '✦',
{
}

/// The star capacity of a `cols` by `rows` sky; see `star_quota_spec`.
pub fn star_quota(cols: usize, rows: usize) -> (n: usize)
    requires
        cols * rows <= usize::MAX,
    ensures
        n == star_quota_spec(cols as int, rows as int),
        MIN_STARS <= n <= MAX_STARS,
{
    let n = (cols * rows) / CELLS_PER_STAR;
    if n < MIN_STARS {
        MIN_STARS
    } else if n > MAX_STARS {
        MAX_STARS
    } else {
        n
    }
}

/// The glyph of the star added when the sky already holds `n` stars:
/// every seventh a four-pointed star, of the rest every third a dot, and
/// the others a point.
pub open spec fn star_glyph_spec(n: int) -> char {
    if n % 7 == 0 {
        '✦'
    } else if n % 3 == 0 {
        '•'
    } else {
        '.'
    }
}

/// The glyph of the star added when the sky already holds `n` stars; see
/// `star_glyph_spec`.
pub fn star_glyph(n: usize) -> (ch: char)
    ensures
        ch == star_glyph_spec(n as int),
{
    if n % 7 == 0 {
        '✦'
    } else if n % 3 == 0 {
        '•'
    } else {
        '.'
    }
}

} // verus!
