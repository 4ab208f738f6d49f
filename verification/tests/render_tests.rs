use flame_core::field::FireField;
use flame_core::palette::get_palette;
use flame_core::render::{
    draw_fire_layer, draw_flare, draw_glob, fire_cell, fire_glyph, overlay_spark, paint_star,
    place, place_signed, Cell,
};

fn blank() -> Cell {
    Cell { ch: ' ', fg: (1, 2, 3), bg: (4, 5, 6), bold: false }
}

fn grid(n: usize) -> Vec<Cell> {
    vec![blank(); n]
}

#[test]
fn fire_glyphs_run_from_blank_to_block() {
    let expected = [
        ' ', '.', ':', '-', '=', '+', '*', 'o', 's', 'x', 'z', '#', 'A', '@', '█',
    ];
    for (i, ch) in expected.iter().enumerate() {
        assert_eq!(fire_glyph(i), *ch);
    }
}

#[test]
fn fire_cell_uses_glyph_palette_and_weight() {
    let palette = get_palette((0, 0, 0));
    let c = fire_cell(1, &palette);
    assert_eq!(c, Cell { ch: ' ', fg: palette[1], bg: (0, 0, 0), bold: false });
    let c = fire_cell(14, &palette);
    assert_eq!(c, Cell { ch: '+', fg: palette[14], bg: (0, 0, 0), bold: false });
    let c = fire_cell(15, &palette);
    assert_eq!(c, Cell { ch: '*', fg: palette[15], bg: (0, 0, 0), bold: true });
    let c = fire_cell(35, &palette);
    assert_eq!(c, Cell { ch: '█', fg: (255, 255, 240), bg: (0, 0, 0), bold: true });
    // Heat beyond the maximum draws as the maximum.
    assert_eq!(fire_cell(200, &palette), fire_cell(35, &palette));
}

#[test]
fn fire_glyph_index_matches_scaled_heat() {
    let palette = get_palette((0, 0, 0));
    let chars = [
        ' ', '.', ':', '-', '=', '+', '*', 'o', 's', 'x', 'z', '#', 'A', '@', '█',
    ];
    for h in 1..=35usize {
        assert_eq!(fire_cell(h as u8, &palette).ch, chars[(h * 14) / 35]);
    }
}

#[test]
fn fire_layer_paints_only_hot_cells() {
    let palette = get_palette((0, 0, 0));
    let mut f = FireField::new(3, 2);
    f.kindle(0, 1, 20);
    f.kindle(2, 0, 5);
    let mut g = grid(8);
    draw_fire_layer(&f, &palette, &mut g);
    assert_eq!(g.len(), 8);
    assert_eq!(g[3], fire_cell(20, &palette));
    assert_eq!(g[2], fire_cell(5, &palette));
    for i in [0usize, 1, 4, 5, 6, 7] {
        assert_eq!(g[i], blank());
    }
}

#[test]
fn sparks_hide_behind_strong_fire() {
    let mut f = FireField::new(4, 4);
    f.kindle(1, 1, 10);
    f.kindle(2, 1, 9);
    let mut g = grid(16);
    overlay_spark(&f, &mut g, 1, 1, '*', (255, 200, 100), true);
    assert_eq!(g[5], blank());
    overlay_spark(&f, &mut g, 2, 1, '*', (255, 200, 100), true);
    assert_eq!(g[6], Cell { ch: '*', fg: (255, 200, 100), bg: (4, 5, 6), bold: true });
    overlay_spark(&f, &mut g, -1, 0, '.', (1, 1, 1), false);
    overlay_spark(&f, &mut g, 4, 0, '.', (1, 1, 1), false);
    overlay_spark(&f, &mut g, 0, 4, '.', (1, 1, 1), false);
    let changed = g.iter().filter(|c| **c != blank()).count();
    assert_eq!(changed, 1);
}

#[test]
fn glob_draws_core_and_envelope() {
    let mut g = grid(25);
    draw_glob(&mut g, 5, 5, 2, 2);
    let core = Cell { ch: '●', fg: (255, 255, 200), bg: (0, 0, 0), bold: true };
    let env = Cell { ch: 'o', fg: (255, 130, 0), bg: (0, 0, 0), bold: true };
    assert_eq!(g[12], core);
    assert_eq!(g[11], env);
    assert_eq!(g[13], env);
    assert_eq!(g[7], env);
    assert_eq!(g[17], env);
    assert_eq!(g.iter().filter(|c| **c == blank()).count(), 20);
}

#[test]
fn glob_at_the_corner_is_clipped() {
    let mut g = grid(9);
    draw_glob(&mut g, 3, 3, 0, 0);
    assert_eq!(g[0].ch, '●');
    assert_eq!(g[1].ch, 'o');
    assert_eq!(g[3].ch, 'o');
    assert_eq!(g.iter().filter(|c| **c == blank()).count(), 6);
    let mut h = grid(9);
    draw_glob(&mut h, 3, 3, -5, 1);
    assert!(h.iter().all(|c| *c == blank()));
}

#[test]
fn placing_checks_bounds() {
    let mut g = grid(6);
    let c = Cell { ch: 'L', fg: (9, 9, 9), bg: (0, 0, 0), bold: true };
    assert!(place(&mut g, 3, 2, 2, 1, c));
    assert_eq!(g[5], c);
    assert!(!place(&mut g, 3, 2, 3, 0, c));
    assert!(!place(&mut g, 3, 2, 0, 2, c));
    place_signed(&mut g, 3, 2, -1, 0, c);
    place_signed(&mut g, 3, 2, 1, 0, c);
    assert_eq!(g[1], c);
    assert_eq!(g.iter().filter(|x| **x == c).count(), 2);
}

#[test]
fn stars_only_show_where_nothing_burns() {
    let mut f = FireField::new(4, 2);
    f.kindle(1, 0, 3);
    let mut g = grid(8);
    let star = Cell { ch: '✦', fg: (200, 200, 225), bg: (0, 0, 0), bold: false };
    assert!(!paint_star(&f, &mut g, 1, 0, star));
    assert!(!paint_star(&f, &mut g, 4, 0, star));
    assert!(!paint_star(&f, &mut g, 0, 2, star));
    assert!(paint_star(&f, &mut g, 3, 1, star));
    assert_eq!(g[7], star);
    assert_eq!(g.iter().filter(|c| **c == star).count(), 1);
}

#[test]
fn flare_streaks_fade_with_distance() {
    let f = FireField::new(20, 10);
    let space = Cell { ch: ' ', fg: (0, 0, 0), bg: (0, 0, 0), bold: false };
    let mut g = vec![space; 200];
    draw_flare(&f, &mut g, 10, 5, 120, 90, (255, 200, 0));
    let at = |g: &Vec<Cell>, x: usize, y: usize| g[y * 20 + x];
    // One cell to the right: brightness 111.
    assert_eq!(at(&g, 11, 5), Cell { ch: '─', fg: (255, 243, 156), bg: (0, 0, 0), bold: false });
    // Ten cells to the left: brightness 30.
    assert_eq!(at(&g, 0, 5), Cell { ch: '─', fg: (234, 182, 75), bg: (0, 0, 0), bold: false });
    // Four cells down: brightness 26.
    assert_eq!(at(&g, 10, 9), Cell { ch: '│', fg: (230, 179, 56), bg: (0, 0, 0), bold: false });
    assert_eq!(at(&g, 10, 1).ch, '│');
    // The star's own cell and the diagonals are untouched.
    assert_eq!(at(&g, 10, 5), space);
    assert_eq!(at(&g, 11, 6), space);
    // Streak cells: 19 other cells in the row, 8 in the column.
    let drawn = g.iter().filter(|c| c.ch != ' ').count();
    assert_eq!(drawn, 19 + 8);
}

#[test]
fn flare_respects_fire_and_other_glyphs() {
    let mut f = FireField::new(10, 3);
    f.kindle(5, 1, 1);
    let space = Cell { ch: ' ', fg: (0, 0, 0), bg: (7, 7, 7), bold: true };
    let mut g = vec![space; 30];
    g[1 * 10 + 3] = Cell { ch: '│', fg: (0, 0, 0), bg: (0, 0, 0), bold: false };
    draw_flare(&f, &mut g, 4, 1, 40, 11, (0, 0, 0));
    // Fire at (5, 1) blocks the streak there.
    assert_eq!(g[15], space);
    // A vertical streak glyph is not covered by a horizontal streak.
    assert_eq!(g[13].ch, '│');
    // Brightness 40 - 9 * 2 = 22 two cells away: drawn, keeping background and weight.
    assert_eq!(g[16], Cell { ch: '─', fg: (22, 16, 67), bg: (7, 7, 7), bold: true });
    // Brightness 40 - 9 * 4 = 4 is too faint.
    assert_eq!(g[18], space);
    // Vertical brightness 11 - 16 saturates to 0: no vertical streak.
    assert_eq!(g[4], space);
    assert_eq!(g[24], space);
}

#[test]
fn streak_colour_matches_float_scaling() {
    let f = FireField::new(3, 1);
    for c in [0u8, 1, 4, 5, 9, 10, 99, 100, 127, 200, 254, 255] {
        let mut g = grid(3);
        g[0].ch = ' ';
        draw_flare(&f, &mut g, 1, 0, 60, 0, (c, c, c));
        let fade: u8 = 60 - 9;
        let scaled = (c as f32 * 0.8) as u8;
        let expected = (
            fade.saturating_add(scaled),
            ((fade as f32 * 0.75) as u8).saturating_add(scaled),
            fade.saturating_add(45).saturating_add(scaled),
        );
        assert_eq!(g[0].fg, expected, "colour {}", c);
    }
}
