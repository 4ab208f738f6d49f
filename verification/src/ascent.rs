//! The upward pass of the fire: every cell above the bottom row, row by row
//! from the top and left to right, sends its heat one row up. Because each
//! row is read before any cell of it is written, the pass reads the field
//! as it was before the pass, and heat climbs exactly one row per step.

use vstd::prelude::*;
use crate::field::{
    FireField, grid_index, drift_column, cooled, lemma_grid_index_bounds,
    lemma_grid_index_injective,
};

verus! {

/// Column of the `k`-th cell visited by the pass.
pub open spec fn pass_x(cols: int, k: int) -> int {
    k % cols
}

/// Row of the `k`-th cell visited by the pass: the pass starts at row 1.
pub open spec fn pass_y(cols: int, k: int) -> int {
    k / cols + 1
}

/// Position in the grid of the `k`-th cell visited by the pass.
pub open spec fn pass_src(cols: int, k: int) -> int {
    grid_index(cols, pass_x(cols, k), pass_y(cols, k))
}

/// Position in the grid that the `k`-th cell's heat rises to: one row up,
/// drifted by the `k`-th draw's offset.
pub open spec fn pass_dest(cols: int, draws: Seq<(i32, u8)>, k: int) -> int {
    grid_index(
        cols,
        drift_column(pass_x(cols, k), draws[k].0 as int, cols),
        pass_y(cols, k) - 1,
    )
}

/// The heat levels after the first `n` cells of the pass have sent their
/// heat up, starting from `s`. Draw `k` holds the drift offset and the
/// decay for the `k`-th cell.
pub open spec fn ascent(s: Seq<u8>, cols: int, draws: Seq<(i32, u8)>, n: int) -> Seq<u8>
    decreases n,
{
    if n <= 0 {
        s
    } else {
        let prev = ascent(s, cols, draws, n - 1);
        prev.update(
            pass_dest(cols, draws, n - 1),
            cooled(prev[pass_src(cols, n - 1)], draws[n - 1].1),
        )
    }
}

/// The draws a pass over a `cols` by `rows` field takes: one per cell
/// above the bottom row, with offsets that keep every drifted column
/// within `i32`.
pub open spec fn valid_draws(cols: int, rows: int, draws: Seq<(i32, u8)>) -> bool {
    &&& rows >= 1
    &&& draws.len() == cols * (rows - 1)
    &&& forall|k: int| 0 <= k < draws.len() ==> #[trigger] draws[k].0 + cols <= i32::MAX + 1
}

proof fn lemma_pass_position(cols: int, rows: int, k: int)
    requires
        cols > 0,
        0 <= k < cols * (rows - 1),
    ensures
        0 <= pass_x(cols, k) < cols,
        1 <= pass_y(cols, k) < rows,
        k == (pass_y(cols, k) - 1) * cols + pass_x(cols, k),
{
    vstd::arithmetic::div_mod::lemma_fundamental_div_mod(k, cols);
    let q = k / cols;
    assert(0 <= q) by {
        vstd::arithmetic::div_mod::lemma_div_pos_is_pos(k, cols);
    }
    assert(q < rows - 1) by {
        if q >= rows - 1 {
            assert(cols * q >= cols * (rows - 1)) by (nonlinear_arith)
                requires
                    q >= rows - 1,
                    cols > 0,
            ;
        }
    }
    assert(k == q * cols + k % cols) by (nonlinear_arith)
        requires
            k == cols * q + k % cols,
    ;
}

proof fn lemma_pass_rows_ordered(cols: int, j: int, k: int)
    requires
        cols > 0,
        0 <= j <= k,
    ensures
        pass_y(cols, j) <= pass_y(cols, k),
{
    vstd::arithmetic::div_mod::lemma_div_is_ordered(j, k, cols);
}

proof fn lemma_pass_dest_bounds(cols: int, rows: int, draws: Seq<(i32, u8)>, k: int)
    requires
        cols > 0,
        valid_draws(cols, rows, draws),
        0 <= k < draws.len(),
    ensures
        0 <= pass_dest(cols, draws, k) < cols * rows,
        0 <= pass_src(cols, k) < cols * rows,
{
    lemma_pass_position(cols, rows, k);
    lemma_grid_index_bounds(
        cols,
        rows,
        drift_column(pass_x(cols, k), draws[k].0 as int, cols),
        pass_y(cols, k) - 1,
    );
    lemma_grid_index_bounds(cols, rows, pass_x(cols, k), pass_y(cols, k));
}

proof fn lemma_ascent_len(s: Seq<u8>, cols: int, rows: int, draws: Seq<(i32, u8)>, n: int)
    requires
        cols > 0,
        s.len() == cols * rows,
        valid_draws(cols, rows, draws),
        0 <= n <= draws.len(),
    ensures
        ascent(s, cols, draws, n).len() == s.len(),
    decreases n,
{
    if n > 0 {
        lemma_ascent_len(s, cols, rows, draws, n - 1);
        lemma_pass_dest_bounds(cols, rows, draws, n - 1);
    }
}

/// A cell still to be visited by the pass has not been written yet: every
/// earlier write went to a row above it.
proof fn lemma_source_untouched(
    s: Seq<u8>,
    cols: int,
    rows: int,
    draws: Seq<(i32, u8)>,
    j: int,
    k: int,
)
    requires
        cols > 0,
        s.len() == cols * rows,
        valid_draws(cols, rows, draws),
        0 <= j <= k < draws.len(),
    ensures
        ascent(s, cols, draws, j)[pass_src(cols, k)] == s[pass_src(cols, k)],
    decreases j,
{
    if j > 0 {
        let i = j - 1;
        lemma_source_untouched(s, cols, rows, draws, i, k);
        lemma_ascent_len(s, cols, rows, draws, i);
        lemma_pass_dest_bounds(cols, rows, draws, i);
        lemma_pass_dest_bounds(cols, rows, draws, k);
        lemma_pass_position(cols, rows, i);
        lemma_pass_position(cols, rows, k);
        lemma_pass_rows_ordered(cols, i, k);
        let dx = drift_column(pass_x(cols, i), draws[i].0 as int, cols);
        if pass_dest(cols, draws, i) == pass_src(cols, k) {
            lemma_grid_index_injective(
                cols,
                dx,
                pass_y(cols, i) - 1,
                pass_x(cols, k),
                pass_y(cols, k),
            );
        }
    }
}

/// Heat rises one row per pass. After the pass, every cell holds either
/// the heat it had before, or heat that rose into it from a cell of the
/// row below as that cell was before the pass, cooled by that cell's
/// decay. The bottom row keeps its heat.
pub proof fn lemma_heat_rises_one_row(s: Seq<u8>, cols: int, rows: int, draws: Seq<(i32, u8)>)
    requires
        cols > 0,
        s.len() == cols * rows,
        valid_draws(cols, rows, draws),
    ensures
        ({
            let t = ascent(s, cols, draws, draws.len() as int);
            &&& t.len() == s.len()
            &&& forall|i: int|
                0 <= i < s.len() ==> t[i] == s[i] || exists|k: int|
                    0 <= k < draws.len() && #[trigger] pass_dest(cols, draws, k) == i && t[i]
                        == cooled(s[pass_src(cols, k)], draws[k].1)
            &&& forall|x: int|
                #![trigger grid_index(cols, x, rows - 1)]
                0 <= x < cols ==> t[grid_index(cols, x, rows - 1)] == s[grid_index(
                    cols,
                    x,
                    rows - 1,
                )]
        }),
{
    lemma_heat_rises_prefix(s, cols, rows, draws, draws.len() as int);
    lemma_ascent_len(s, cols, rows, draws, draws.len() as int);
}

proof fn lemma_heat_rises_prefix(s: Seq<u8>, cols: int, rows: int, draws: Seq<(i32, u8)>, n: int)
    requires
        cols > 0,
        s.len() == cols * rows,
        valid_draws(cols, rows, draws),
        0 <= n <= draws.len(),
    ensures
        ({
            let t = ascent(s, cols, draws, n);
            &&& forall|i: int|
                0 <= i < s.len() ==> t[i] == s[i] || exists|k: int|
                    0 <= k < n && #[trigger] pass_dest(cols, draws, k) == i && t[i] == cooled(
                        s[pass_src(cols, k)],
                        draws[k].1,
                    )
            &&& forall|x: int|
                #![trigger grid_index(cols, x, rows - 1)]
                0 <= x < cols ==> t[grid_index(cols, x, rows - 1)] == s[grid_index(
                    cols,
                    x,
                    rows - 1,
                )]
        }),
    decreases n,
{
    if n > 0 {
        let m = n - 1;
        lemma_heat_rises_prefix(s, cols, rows, draws, m);
        lemma_ascent_len(s, cols, rows, draws, m);
        lemma_pass_dest_bounds(cols, rows, draws, m);
        lemma_pass_position(cols, rows, m);
        lemma_source_untouched(s, cols, rows, draws, m, m);
        let prev = ascent(s, cols, draws, m);
        let t = ascent(s, cols, draws, n);
        let d = pass_dest(cols, draws, m);
        assert(t == prev.update(d, cooled(s[pass_src(cols, m)], draws[m].1)));
        assert forall|i: int| 0 <= i < s.len() implies t[i] == s[i] || exists|k: int|
            0 <= k < n && #[trigger] pass_dest(cols, draws, k) == i && t[i] == cooled(
                s[pass_src(cols, k)],
                draws[k].1,
            ) by {
            if i == d {
                assert(pass_dest(cols, draws, m) == i);
            } else {
                assert(t[i] == prev[i]);
                if prev[i] != s[i] {
                    let k = choose|k: int|
                        0 <= k < m && #[trigger] pass_dest(cols, draws, k) == i && prev[i]
                            == cooled(s[pass_src(cols, k)], draws[k].1);
                    assert(pass_dest(cols, draws, k) == i);
                }
            }
        }
        assert forall|x: int|
            #![trigger grid_index(cols, x, rows - 1)]
            0 <= x < cols implies t[grid_index(cols, x, rows - 1)] == s[grid_index(
            cols,
            x,
            rows - 1,
        )] by {
            lemma_grid_index_bounds(cols, rows, x, rows - 1);
            let dx = drift_column(pass_x(cols, m), draws[m].0 as int, cols);
            if d == grid_index(cols, x, rows - 1) {
                lemma_grid_index_injective(cols, dx, pass_y(cols, m) - 1, x, rows - 1);
            }
        }
    }
}

/// Whether some cell after the `k`-th, among the first `n` of the pass,
/// sends its heat to the same place as the `k`-th.
pub open spec fn overwritten_later(cols: int, draws: Seq<(i32, u8)>, k: int, n: int) -> bool {
    exists|j: int| k < j < n && #[trigger] pass_dest(cols, draws, j) == pass_dest(cols, draws, k)
}

/// Every cell of the pass delivers its heat. After the pass, the place that
/// cell `(x, y)` (any row `1 <= y < rows`, the first row included) sends
/// its heat to holds that heat, as it was before the pass, cooled by the
/// cell's decay, unless a cell visited later sends its heat to the same
/// place; in that case the place holds the heat of the last such cell. A
/// place no cell sends heat to keeps its heat.
pub proof fn lemma_every_cell_delivers(s: Seq<u8>, cols: int, rows: int, draws: Seq<(i32, u8)>)
    requires
        cols > 0,
        s.len() == cols * rows,
        valid_draws(cols, rows, draws),
    ensures
        ({
            let t = ascent(s, cols, draws, draws.len() as int);
            let total = draws.len() as int;
            &&& forall|x: int, y: int|
                #![trigger grid_index(cols, x, y)]
                0 <= x < cols && 1 <= y < rows ==> {
                    let k = (y - 1) * cols + x;
                    let dest = grid_index(cols, drift_column(x, draws[k].0 as int, cols), y - 1);
                    &&& pass_src(cols, k) == grid_index(cols, x, y)
                    &&& pass_dest(cols, draws, k) == dest
                    &&& !overwritten_later(cols, draws, k, total) ==> t[dest] == cooled(
                        s[grid_index(cols, x, y)],
                        draws[k].1,
                    )
                }
            &&& forall|k: int|
                #![trigger pass_dest(cols, draws, k)]
                0 <= k < total ==> exists|j: int|
                    #![trigger pass_dest(cols, draws, j)]
                    k <= j < total && pass_dest(cols, draws, j) == pass_dest(
                        cols,
                        draws,
                        k,
                    ) && !overwritten_later(cols, draws, j, total) && t[pass_dest(cols, draws, k)]
                        == cooled(s[pass_src(cols, j)], draws[j].1)
            &&& forall|i: int|
                0 <= i < s.len() && (forall|k: int|
                    0 <= k < total ==> #[trigger] pass_dest(cols, draws, k) != i) ==> t[i] == s[i]
        }),
{
    let total = draws.len() as int;
    lemma_delivers_prefix(s, cols, rows, draws, total);
    lemma_untouched_places(s, cols, rows, draws, total);
    let t = ascent(s, cols, draws, total);
    assert forall|x: int, y: int|
        #![trigger grid_index(cols, x, y)]
        0 <= x < cols && 1 <= y < rows implies {
        let k = (y - 1) * cols + x;
        let dest = grid_index(cols, drift_column(x, draws[k].0 as int, cols), y - 1);
        &&& pass_src(cols, k) == grid_index(cols, x, y)
        &&& pass_dest(cols, draws, k) == dest
        &&& !overwritten_later(cols, draws, k, total) ==> t[dest] == cooled(
            s[grid_index(cols, x, y)],
            draws[k].1,
        )
    } by {
        let k = (y - 1) * cols + x;
        lemma_grid_index_bounds(cols, rows - 1, x, y - 1);
        vstd::arithmetic::div_mod::lemma_fundamental_div_mod_converse(k, cols, y - 1, x);
        if !overwritten_later(cols, draws, k, total) {
            let j = choose|j: int|
                k <= j < total && #[trigger] pass_dest(cols, draws, j) == pass_dest(cols, draws, k)
                    && !overwritten_later(cols, draws, j, total) && t[pass_dest(cols, draws, k)]
                    == cooled(s[pass_src(cols, j)], draws[j].1);
            if j != k {
                assert(k < j < total && pass_dest(cols, draws, j) == pass_dest(cols, draws, k));
            }
        }
    }
}

proof fn lemma_overwritten_step(cols: int, draws: Seq<(i32, u8)>, j: int, m: int)
    requires
        0 <= j < m,
    ensures
        overwritten_later(cols, draws, j, m + 1) == (overwritten_later(cols, draws, j, m)
            || pass_dest(cols, draws, m) == pass_dest(cols, draws, j)),
{
    if overwritten_later(cols, draws, j, m + 1) {
        let i = choose|i: int|
            j < i < m + 1 && #[trigger] pass_dest(cols, draws, i) == pass_dest(cols, draws, j);
        if i < m {
            assert(j < i < m && pass_dest(cols, draws, i) == pass_dest(cols, draws, j));
        }
    }
    if overwritten_later(cols, draws, j, m) {
        let i = choose|i: int|
            j < i < m && #[trigger] pass_dest(cols, draws, i) == pass_dest(cols, draws, j);
        assert(j < i < m + 1 && pass_dest(cols, draws, i) == pass_dest(cols, draws, j));
    }
    if pass_dest(cols, draws, m) == pass_dest(cols, draws, j) {
        assert(j < m < m + 1 && pass_dest(cols, draws, m) == pass_dest(cols, draws, j));
    }
}

proof fn lemma_untouched_places(s: Seq<u8>, cols: int, rows: int, draws: Seq<(i32, u8)>, n: int)
    requires
        cols > 0,
        s.len() == cols * rows,
        valid_draws(cols, rows, draws),
        0 <= n <= draws.len(),
    ensures
        forall|i: int|
            0 <= i < s.len() && (forall|k: int|
                0 <= k < n ==> #[trigger] pass_dest(cols, draws, k) != i) ==> ascent(
                s,
                cols,
                draws,
                n,
            )[i] == s[i],
    decreases n,
{
    if n > 0 {
        let m = n - 1;
        lemma_untouched_places(s, cols, rows, draws, m);
        lemma_ascent_len(s, cols, rows, draws, m);
        lemma_pass_dest_bounds(cols, rows, draws, m);
        assert forall|i: int|
            0 <= i < s.len() && (forall|k: int|
                0 <= k < n ==> #[trigger] pass_dest(cols, draws, k) != i) implies ascent(
            s,
            cols,
            draws,
            n,
        )[i] == s[i] by {
            assert(pass_dest(cols, draws, m) != i);
            assert forall|k: int| 0 <= k < m implies #[trigger] pass_dest(cols, draws, k) != i by {}
        }
    }
}

#[verifier::rlimit(50)]
proof fn lemma_delivers_prefix(s: Seq<u8>, cols: int, rows: int, draws: Seq<(i32, u8)>, n: int)
    requires
        cols > 0,
        s.len() == cols * rows,
        valid_draws(cols, rows, draws),
        0 <= n <= draws.len(),
    ensures
        forall|k: int|
            #![trigger pass_dest(cols, draws, k)]
            0 <= k < n ==> exists|j: int|
                #![trigger pass_dest(cols, draws, j)]
                k <= j < n && pass_dest(cols, draws, j) == pass_dest(cols, draws, k)
                    && !overwritten_later(cols, draws, j, n) && ascent(s, cols, draws, n)[pass_dest(
                    cols,
                    draws,
                    k,
                )] == cooled(s[pass_src(cols, j)], draws[j].1),
    decreases n,
{
    if n > 0 {
        let m = n - 1;
        lemma_delivers_prefix(s, cols, rows, draws, m);
        lemma_ascent_len(s, cols, rows, draws, m);
        lemma_pass_dest_bounds(cols, rows, draws, m);
        lemma_source_untouched(s, cols, rows, draws, m, m);
        let prev = ascent(s, cols, draws, m);
        let t = ascent(s, cols, draws, n);
        let d = pass_dest(cols, draws, m);
        assert(t == prev.update(d, cooled(s[pass_src(cols, m)], draws[m].1)));
        assert(!overwritten_later(cols, draws, m, n));
        assert forall|k: int|
            #![trigger pass_dest(cols, draws, k)]
            0 <= k < n implies exists|j: int|
            #![trigger pass_dest(cols, draws, j)]
            k <= j < n && pass_dest(cols, draws, j) == pass_dest(cols, draws, k)
                && !overwritten_later(cols, draws, j, n) && t[pass_dest(cols, draws, k)]
                == cooled(s[pass_src(cols, j)], draws[j].1) by {
            if pass_dest(cols, draws, k) == d {
                assert(pass_dest(cols, draws, m) == pass_dest(cols, draws, k));
            } else {
                let j = choose|j: int|
                    #![trigger pass_dest(cols, draws, j)]
                    k <= j < m && pass_dest(cols, draws, j) == pass_dest(cols, draws, k)
                        && !overwritten_later(cols, draws, j, m) && prev[pass_dest(cols, draws, k)]
                        == cooled(s[pass_src(cols, j)], draws[j].1);
                lemma_pass_dest_bounds(cols, rows, draws, k);
                lemma_overwritten_step(cols, draws, j, m);
                assert(t[pass_dest(cols, draws, k)] == prev[pass_dest(cols, draws, k)]);
            }
        }
    }
}

impl FireField {
    /// One upward pass of the fire. The cells above the bottom row are
    /// visited row by row from row 1 down to the bottom, each row left to
    /// right, and each sends its heat one row up with `rise`, taking the
    /// drift offset and decay of its draw. See `lemma_heat_rises_one_row`.
    pub fn ascend(&mut self, draws: &Vec<(i32, u8)>)
        requires
            old(self).wf(),
            old(self).cols <= i32::MAX,
            valid_draws(old(self).cols as int, old(self).rows as int, draws@),
        ensures
            final(self).wf(),
            final(self).cols == old(self).cols,
            final(self).rows == old(self).rows,
            final(self).heat@ == ascent(
                old(self).heat@,
                old(self).cols as int,
                draws@,
                draws@.len() as int,
            ),
    {
        let cols = self.cols;
        let rows = self.rows;
        let mut y: usize = 1;
        while y < rows
            invariant
                1 <= y <= rows,
                self.wf(),
                self.cols == cols,
                self.rows == rows,
                cols == old(self).cols,
                rows == old(self).rows,
                cols <= i32::MAX,
                valid_draws(cols as int, rows as int, draws@),
                self.heat@ == ascent(old(self).heat@, cols as int, draws@, (y - 1) * cols),
            decreases rows - y,
        {
            let mut x: usize = 0;
            while x < cols
                invariant
                    1 <= y < rows,
                    x <= cols,
                    self.wf(),
                    self.cols == cols,
                    self.rows == rows,
                    cols == old(self).cols,
                    rows == old(self).rows,
                    cols <= i32::MAX,
                    valid_draws(cols as int, rows as int, draws@),
                    self.heat@ == ascent(old(self).heat@, cols as int, draws@, (y - 1) * cols + x),
                decreases cols - x,
            {
                proof {
                    lemma_grid_index_bounds(cols as int, rows - 1, x as int, y - 1);
                    // the draws' length fits in usize, and so does any index below it
                    assert(draws.len() == draws@.len());
                }
                let k = (y - 1) * cols + x;
                let (offset, decay) = draws[k];
                proof {
                    vstd::arithmetic::div_mod::lemma_fundamental_div_mod_converse(
                        k as int,
                        cols as int,
                        y - 1,
                        x as int,
                    );
                }
                self.rise(x, y, offset, decay);
                x = x + 1;
            }
            assert((y - 1) * cols + cols == y * cols) by (nonlinear_arith);
            y = y + 1;
        }
        assert((rows - 1) * cols == cols * (rows - 1)) by (nonlinear_arith);
    }
}

} // verus!
