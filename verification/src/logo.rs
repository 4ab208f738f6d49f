//! Placing the logo: its lines are centred on the screen and every
//! non-blank character becomes a glyph of its own.

use vstd::prelude::*;

verus! {

/// A character of the logo and the screen position it occupies.
#[derive(Clone, Copy, Debug, PartialEq, Eq)]
pub struct LogoGlyph {
    pub x: usize,
    pub y: usize,
    pub ch: char,
}

impl View for LogoGlyph {
    /// Column, row and character.
    type V = (usize, usize, char);

    open spec fn view(&self) -> (usize, usize, char) {
        (self.x, self.y, self.ch)
    }
}

/// Length of the longest line, zero when there are none.
pub open spec fn widest(lines: Seq<Vec<char>>) -> nat
    decreases lines.len(),
{
    if lines.len() == 0 {
        0
    } else {
        let w = widest(lines.drop_last());
        let l = lines.last()@.len();
        if w >= l {
            w
        } else {
            l
        }
    }
}

/// Where a block of `extent` cells starts when centred in `space` cells:
/// half the room left over, or zero when it does not fit.
pub open spec fn centred_origin(space: int, extent: int) -> int {
    if space > extent {
        (space - extent) / 2
    } else {
        0
    }
}

/// The glyphs of the first `n` characters of a line, left to right, for
/// those characters that are not spaces; the line starts at column `x0` of
/// row `y`.
pub open spec fn line_glyphs(line: Seq<char>, x0: int, y: int, n: int) -> Seq<(usize, usize, char)>
    decreases n,
{
    if n <= 0 {
        Seq::empty()
    } else {
        let rest = line_glyphs(line, x0, y, n - 1);
        if line[n - 1] != ' ' {
            rest.push(((x0 + n - 1) as usize, y as usize, line[n - 1]))
        } else {
            rest
        }
    }
}

/// The glyphs of the first `n` lines of a block, top to bottom; the
/// block's top left corner is at `(x0, y0)`.
pub open spec fn block_glyphs(lines: Seq<Vec<char>>, x0: int, y0: int, n: int) -> Seq<(usize, usize, char)>
    decreases n,
{
    if n <= 0 {
        Seq::empty()
    } else {
        block_glyphs(lines, x0, y0, n - 1) + line_glyphs(
            lines[n - 1]@,
            x0,
            y0 + n - 1,
            lines[n - 1]@.len() as int,
        )
    }
}

/// The glyphs of the logo `lines` centred on a `cols` by `rows` screen.
pub open spec fn logo_layout(lines: Seq<Vec<char>>, cols: int, rows: int) -> Seq<(usize, usize, char)> {
    block_glyphs(
        lines,
        centred_origin(cols, widest(lines) as int),
        centred_origin(rows, lines.len() as int),
        lines.len() as int,
    )
}

proof fn lemma_widest_bounds(lines: Seq<Vec<char>>, i: int)
    requires
        0 <= i < lines.len(),
    ensures
        lines[i]@.len() <= widest(lines),
    decreases lines.len(),
{
    if i < lines.len() - 1 {
        lemma_widest_bounds(lines.drop_last(), i);
    }
}

proof fn lemma_line_members(line: Seq<char>, x0: int, y: int, n: int)
    requires
        0 <= n <= line.len(),
    ensures
        forall|i: int|
            #![trigger line_glyphs(line, x0, y, n)[i]]
            0 <= i < line_glyphs(line, x0, y, n).len() ==> exists|c: int|
                #![trigger line[c]]
                0 <= c < n && line[c] != ' ' && line_glyphs(line, x0, y, n)[i] == (
                    (x0 + c) as usize,
                    y as usize,
                    line[c],
                ),
        forall|c: int|
            #![trigger line[c]]
            0 <= c < n && line[c] != ' ' ==> exists|i: int|
                #![trigger line_glyphs(line, x0, y, n)[i]]
                0 <= i < line_glyphs(line, x0, y, n).len() && line_glyphs(line, x0, y, n)[i] == (
                    (x0 + c) as usize,
                    y as usize,
                    line[c],
                ),
    decreases n,
{
    if n > 0 {
        lemma_line_members(line, x0, y, n - 1);
        let prev = line_glyphs(line, x0, y, n - 1);
        let g = line_glyphs(line, x0, y, n);
        let c0 = n - 1;
        assert((x0 + n - 1) as usize == (x0 + c0) as usize);
        assert forall|i: int|
            #![trigger g[i]]
            0 <= i < g.len() implies exists|c: int|
            #![trigger line[c]]
            0 <= c < n && line[c] != ' ' && g[i] == ((x0 + c) as usize, y as usize, line[c]) by {
            if i < prev.len() {
                assert(g[i] == prev[i]);
                let c = choose|c: int|
                    #![trigger line[c]]
                    0 <= c < n - 1 && line[c] != ' ' && prev[i] == (
                        (x0 + c) as usize,
                        y as usize,
                        line[c],
                    );
                assert(line[c] != ' ');
            } else {
                assert(line[c0] != ' ');
            }
        }
        assert forall|c: int|
            #![trigger line[c]]
            0 <= c < n && line[c] != ' ' implies exists|i: int|
            #![trigger g[i]]
            0 <= i < g.len() && g[i] == ((x0 + c) as usize, y as usize, line[c]) by {
            if c < n - 1 {
                let i = choose|i: int|
                    #![trigger prev[i]]
                    0 <= i < prev.len() && prev[i] == ((x0 + c) as usize, y as usize, line[c]);
                assert(g[i] == prev[i]);
            } else {
                assert(g[prev.len() as int] == ((x0 + c) as usize, y as usize, line[c]));
            }
        }
    }
}

proof fn lemma_block_members(lines: Seq<Vec<char>>, x0: int, y0: int, n: int)
    requires
        0 <= n <= lines.len(),
    ensures
        forall|i: int|
            #![trigger block_glyphs(lines, x0, y0, n)[i]]
            0 <= i < block_glyphs(lines, x0, y0, n).len() ==> exists|r: int, c: int|
                #![trigger lines[r]@[c]]
                0 <= r < n && 0 <= c < lines[r]@.len() && lines[r]@[c] != ' ' && block_glyphs(
                    lines,
                    x0,
                    y0,
                    n,
                )[i] == ((x0 + c) as usize, (y0 + r) as usize, lines[r]@[c]),
        forall|r: int, c: int|
            #![trigger lines[r]@[c]]
            0 <= r < n && 0 <= c < lines[r]@.len() && lines[r]@[c] != ' ' ==> exists|i: int|
                #![trigger block_glyphs(lines, x0, y0, n)[i]]
                0 <= i < block_glyphs(lines, x0, y0, n).len() && block_glyphs(lines, x0, y0, n)[i]
                    == ((x0 + c) as usize, (y0 + r) as usize, lines[r]@[c]),
    decreases n,
{
    if n > 0 {
        lemma_block_members(lines, x0, y0, n - 1);
        let r0 = n - 1;
        let line = lines[r0]@;
        let len = line.len() as int;
        lemma_line_members(line, x0, y0 + r0, len);
        let prev = block_glyphs(lines, x0, y0, n - 1);
        let tail = line_glyphs(line, x0, y0 + r0, len);
        let b = block_glyphs(lines, x0, y0, n);
        assert(b == prev + tail);
        assert forall|i: int|
            #![trigger b[i]]
            0 <= i < b.len() implies exists|r: int, c: int|
            #![trigger lines[r]@[c]]
            0 <= r < n && 0 <= c < lines[r]@.len() && lines[r]@[c] != ' ' && b[i] == (
                (x0 + c) as usize,
                (y0 + r) as usize,
                lines[r]@[c],
            ) by {
            if i < prev.len() {
                assert(b[i] == prev[i]);
                let (r, c) = choose|r: int, c: int|
                    #![trigger lines[r]@[c]]
                    0 <= r < n - 1 && 0 <= c < lines[r]@.len() && lines[r]@[c] != ' ' && prev[i]
                        == ((x0 + c) as usize, (y0 + r) as usize, lines[r]@[c]);
                assert(lines[r]@[c] != ' ');
                assert(b[i] == ((x0 + c) as usize, (y0 + r) as usize, lines[r]@[c]));
            } else {
                let k = i - prev.len();
                assert(b[i] == tail[k]);
                let c = choose|c: int|
                    #![trigger line[c]]
                    0 <= c < len && line[c] != ' ' && tail[k] == (
                        (x0 + c) as usize,
                        (y0 + r0) as usize,
                        line[c],
                    );
                assert(lines[r0]@[c] != ' ');
                assert(b[i] == ((x0 + c) as usize, (y0 + r0) as usize, lines[r0]@[c]));
            }
        }
        assert forall|r: int, c: int|
            #![trigger lines[r]@[c]]
            0 <= r < n && 0 <= c < lines[r]@.len() && lines[r]@[c] != ' ' implies exists|i: int|
            #![trigger b[i]]
            0 <= i < b.len() && b[i] == ((x0 + c) as usize, (y0 + r) as usize, lines[r]@[c]) by {
            if r < n - 1 {
                let i = choose|i: int|
                    #![trigger prev[i]]
                    0 <= i < prev.len() && prev[i] == (
                        (x0 + c) as usize,
                        (y0 + r) as usize,
                        lines[r]@[c],
                    );
                assert(b[i] == prev[i]);
            } else {
                assert(line[c] != ' ');
                let k = choose|k: int|
                    #![trigger tail[k]]
                    0 <= k < tail.len() && tail[k] == (
                        (x0 + c) as usize,
                        (y0 + r0) as usize,
                        line[c],
                    );
                assert(b[prev.len() + k] == tail[k]);
            }
        }
    } else {
        assert(block_glyphs(lines, x0, y0, n).len() == 0);
    }
}

proof fn lemma_widest_attained(lines: Seq<Vec<char>>)
    requires
        lines.len() > 0,
    ensures
        exists|r: int| 0 <= r < lines.len() && #[trigger] lines[r]@.len() == widest(lines),
    decreases lines.len(),
{
    let l = lines.last()@.len();
    if lines.len() > 1 && widest(lines.drop_last()) >= l {
        lemma_widest_attained(lines.drop_last());
        let r = choose|r: int|
            0 <= r < lines.drop_last().len() && #[trigger] lines.drop_last()[r]@.len() == widest(
                lines.drop_last(),
            );
        assert(lines[r] == lines.drop_last()[r]);
        assert(lines[r]@.len() == widest(lines));
    } else {
        if lines.len() == 1 {
            assert(widest(lines.drop_last()) == 0);
        }
        assert(lines[lines.len() - 1] == lines.last());
        assert(lines[lines.len() - 1]@.len() == widest(lines));
    }
}

/// The logo is centred. Its block of lines starts at column `left` and row
/// `top`, where the room left and right of the block (as wide as its
/// longest line, `width`) differs by at most one column, and the room above
/// and below differs by at most one row; a block that does not fit starts
/// at the edge. Every glyph of the layout is a non-space character of the
/// logo at that offset from the block's corner, and every non-space
/// character of the logo has its glyph.
pub proof fn lemma_logo_centred(lines: Seq<Vec<char>>, cols: int, rows: int) -> (origin: (
    int,
    int,
    int,
))
    requires
        0 <= cols,
        0 <= rows,
    ensures
        ({
            let (left, top, width) = origin;
            let n = lines.len() as int;
            let layout = logo_layout(lines, cols, rows);
            &&& forall|r: int| 0 <= r < n ==> #[trigger] lines[r]@.len() <= width
            &&& n > 0 ==> exists|r: int| 0 <= r < n && #[trigger] lines[r]@.len() == width
            &&& n == 0 ==> width == 0
            &&& cols > width ==> 0 <= left && 2 * left + width <= cols <= 2 * left + width + 1
            &&& cols <= width ==> left == 0
            &&& rows > n ==> 0 <= top && 2 * top + n <= rows <= 2 * top + n + 1
            &&& rows <= n ==> top == 0
            &&& forall|i: int|
                #![trigger layout[i]]
                0 <= i < layout.len() ==> exists|r: int, c: int|
                    #![trigger lines[r]@[c]]
                    0 <= r < n && 0 <= c < lines[r]@.len() && lines[r]@[c] != ' ' && layout[i] == (
                        (left + c) as usize,
                        (top + r) as usize,
                        lines[r]@[c],
                    )
            &&& forall|r: int, c: int|
                #![trigger lines[r]@[c]]
                0 <= r < n && 0 <= c < lines[r]@.len() && lines[r]@[c] != ' ' ==> exists|i: int|
                    #![trigger layout[i]]
                    0 <= i < layout.len() && layout[i] == (
                        (left + c) as usize,
                        (top + r) as usize,
                        lines[r]@[c],
                    )
        }),
{
    let n = lines.len() as int;
    let width = widest(lines) as int;
    let left = centred_origin(cols, width);
    let top = centred_origin(rows, n);
    lemma_block_members(lines, left, top, n);
    assert forall|r: int| 0 <= r < n implies #[trigger] lines[r]@.len() <= width by {
        lemma_widest_bounds(lines, r);
    }
    if n > 0 {
        lemma_widest_attained(lines);
    }
    (left, top, width)
}

proof fn lemma_push_after_concat(
    a: Seq<(usize, usize, char)>,
    b: Seq<(usize, usize, char)>,
    g: (usize, usize, char),
)
    ensures
        (a + b).push(g) == a + b.push(g),
{
    assert((a + b).push(g) =~= a + b.push(g));
}

/// The glyph `ch` at `(x, y)`.
fn glyph(x: usize, y: usize, ch: char) -> (g: LogoGlyph)
    ensures
        g@ == (x, y, ch),
{
    LogoGlyph { x, y, ch }
}

/// Lays the logo out centred on a `cols` by `rows` screen; see
/// `logo_layout`.
pub fn layout_logo(lines: &Vec<Vec<char>>, cols: usize, rows: usize) -> (glyphs: Vec<LogoGlyph>)
    ensures
        glyphs@.len() == logo_layout(lines@, cols as int, rows as int).len(),
        forall|i: int|
            0 <= i < glyphs@.len() ==> #[trigger] glyphs@[i]@ == logo_layout(
                lines@,
                cols as int,
                rows as int,
            )[i],
{
    let height = lines.len();
    let mut width: usize = 0;
    let mut i: usize = 0;
    while i < height
        invariant
            height == lines@.len(),
            i <= height,
            width == widest(lines@.take(i as int)),
        decreases height - i,
    {
        assert(lines@.take(i + 1).drop_last() =~= lines@.take(i as int));
        let l = lines[i].len();
        if l > width {
            width = l;
        }
        i = i + 1;
    }
    assert(lines@.take(height as int) =~= lines@);
    let x0: usize = cols.saturating_sub(width) / 2;
    let y0: usize = rows.saturating_sub(height) / 2;
    let ghost gx0 = centred_origin(cols as int, width as int);
    let ghost gy0 = centred_origin(rows as int, height as int);
    assert(x0 == gx0 && y0 == gy0);
    let mut glyphs: Vec<LogoGlyph> = Vec::new();
    let ghost mut views: Seq<(usize, usize, char)> = Seq::empty();
    let mut r: usize = 0;
    while r < height
        invariant
            height == lines@.len(),
            r <= height,
            width == widest(lines@),
            x0 == gx0,
            y0 == gy0,
            gx0 == centred_origin(cols as int, width as int),
            gy0 == centred_origin(rows as int, height as int),
            views == block_glyphs(lines@, gx0, gy0, r as int),
            glyphs@.len() == views.len(),
            forall|k: int| 0 <= k < views.len() ==> #[trigger] glyphs@[k]@ == views[k],
        decreases height - r,
    {
        let line = &lines[r];
        let n = line.len();
        proof {
            lemma_widest_bounds(lines@, r as int);
        }
        let ghost before = views;
        let mut c: usize = 0;
        while c < n
            invariant
                height == lines@.len(),
                r < height,
                n == lines@[r as int]@.len(),
                *line == lines@[r as int],
                n <= width,
                c <= n,
                width == widest(lines@),
                x0 == gx0,
                y0 == gy0,
                gx0 == centred_origin(cols as int, width as int),
                gy0 == centred_origin(rows as int, height as int),
                views == before + line_glyphs(line@, gx0, gy0 + r, c as int),
                glyphs@.len() == views.len(),
                forall|k: int| 0 <= k < views.len() ==> #[trigger] glyphs@[k]@ == views[k],
            decreases n - c,
        {
            let ch = line[c];
            let ghost prefix = line_glyphs(line@, gx0, gy0 + r, c as int);
            if ch != ' ' {
                assert(x0 + c < if cols > width { cols as int } else { width as int });
                let g = glyph(x0 + c, y0 + r, ch);
                assert(line_glyphs(line@, gx0, gy0 + r, c + 1) == prefix.push(g@));
                proof {
                    lemma_push_after_concat(before, prefix, g@);
                    views = views.push(g@);
                }
                glyphs.push(g);
            } else {
                assert(line_glyphs(line@, gx0, gy0 + r, c + 1) == prefix);
            }
            c = c + 1;
        }
        r = r + 1;
    }
    glyphs
}

} // verus!
