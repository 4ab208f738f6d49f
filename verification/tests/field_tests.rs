use flame_core::field::{decay_band, DecayBand, FireField, HEAT_MAX};

fn at(f: &FireField, x: usize, y: usize) -> u8 {
    f.heat[y * f.cols + x]
}

#[test]
fn new_field_is_cold() {
    let f = FireField::new(10, 5);
    assert_eq!(f.cols, 10);
    assert_eq!(f.rows, 5);
    assert_eq!(f.heat.len(), 50);
    assert!(f.heat.iter().all(|&h| h == 0));
    let empty = FireField::new(0, 7);
    assert!(empty.heat.is_empty());
}

#[test]
fn kindle_caps_at_heat_max() {
    let mut f = FireField::new(4, 3);
    f.kindle(1, 2, 30);
    assert_eq!(at(&f, 1, 2), 30);
    f.kindle(2, 2, 200);
    assert_eq!(at(&f, 2, 2), HEAT_MAX);
    f.kindle(3, 0, 35);
    assert_eq!(f.heat_at(3, 0), 35);
    assert_eq!(f.heat.iter().filter(|&&h| h > 0).count(), 3);
}

#[test]
fn plume_fills_bottom_three_rows_of_its_columns() {
    let mut f = FireField::new(10, 6);
    f.ignite_plume(7, 5);
    for y in 0..6 {
        for x in 0..10 {
            let expected = if x >= 7 && y >= 3 { HEAT_MAX } else { 0 };
            assert_eq!(at(&f, x, y), expected, "cell ({}, {})", x, y);
        }
    }
}

#[test]
fn plume_of_zero_width_changes_nothing() {
    let mut f = FireField::new(5, 3);
    f.ignite_plume(2, 0);
    assert!(f.heat.iter().all(|&h| h == 0));
}

#[test]
fn rising_heat_cools_and_drifts() {
    let mut f = FireField::new(5, 4);
    f.kindle(2, 3, 20);
    // Straight up, cooling by 3.
    f.rise(2, 3, 0, 3);
    assert_eq!(at(&f, 2, 2), 17);
    // A decay of zero still cools by one level.
    f.rise(2, 2, 1, 0);
    assert_eq!(at(&f, 3, 1), 16);
    // Drift is kept inside the field on both sides.
    f.rise(3, 1, 5, 2);
    assert_eq!(at(&f, 4, 0), 14);
    f.rise(3, 1, -9, 40);
    assert_eq!(at(&f, 0, 0), 0);
    // The source cells keep their heat.
    assert_eq!(at(&f, 2, 3), 20);
}

#[test]
fn cold_cell_quenches_the_cell_above() {
    let mut f = FireField::new(3, 3);
    f.kindle(1, 1, 25);
    f.rise(1, 2, -1, 7);
    assert_eq!(at(&f, 0, 1), 0);
    f.rise(0, 2, 1, 0);
    assert_eq!(at(&f, 1, 1), 0);
}

#[test]
fn scorch_sets_a_disc_ablaze() {
    let mut f = FireField::new(20, 20);
    f.scorch(10, 10);
    let mut count = 0;
    for y in 0..20i32 {
        for x in 0..20i32 {
            let inside = (x - 10) * (x - 10) + (y - 10) * (y - 10) <= 16;
            let h = at(&f, x as usize, y as usize);
            assert_eq!(h, if inside { HEAT_MAX } else { 0 });
            if inside {
                count += 1;
            }
        }
    }
    assert_eq!(count, 49);
}

#[test]
fn scorch_near_the_edge_stays_inside() {
    let mut f = FireField::new(6, 4);
    f.scorch(-2, 1);
    assert_eq!(at(&f, 0, 1), HEAT_MAX);
    assert_eq!(at(&f, 1, 1), HEAT_MAX);
    assert_eq!(at(&f, 2, 1), HEAT_MAX);
    assert_eq!(at(&f, 3, 1), 0);
    assert_eq!(at(&f, 0, 3), HEAT_MAX);
    assert_eq!(at(&f, 1, 3), HEAT_MAX);
    assert_eq!(at(&f, 2, 3), 0);
    assert_eq!(f.heat.len(), 24);
    let mut g = FireField::new(3, 3);
    g.scorch(100, 100);
    assert!(g.heat.iter().all(|&h| h == 0));
}

#[test]
fn decay_bands_follow_height() {
    // In a field of 20 rows, a row's height is 19 - y.
    assert_eq!(decay_band(20, 0), DecayBand::Upper);
    assert_eq!(decay_band(20, 5), DecayBand::Upper);
    // Height 13 is exactly 65% of 20: not above it.
    assert_eq!(decay_band(20, 6), DecayBand::Middle);
    assert_eq!(decay_band(20, 10), DecayBand::Middle);
    // Height 8 is exactly 40% of 20.
    assert_eq!(decay_band(20, 11), DecayBand::Lower);
    assert_eq!(decay_band(20, 19), DecayBand::Lower);
    assert_eq!(decay_band(1, 0), DecayBand::Lower);
}

#[test]
fn decay_bands_agree_with_float_ratio() {
    for rows in 1..200usize {
        for y in 0..rows {
            let ratio = (rows - 1 - y) as f32 / rows as f32;
            let expected = if ratio > 0.65 {
                DecayBand::Upper
            } else if ratio > 0.4 {
                DecayBand::Middle
            } else {
                DecayBand::Lower
            };
            assert_eq!(decay_band(rows, y), expected, "rows {} y {}", rows, y);
        }
    }
}

/// One step of the fire with fixed draws: the bottom row burns at 30,
/// heat rises straight up and cools by one level per row.
fn step(f: &mut FireField) {
    let cols = f.cols;
    let rows = f.rows;
    for x in 0..cols {
        f.kindle(x, rows - 1, 30);
    }
    for y in 1..rows {
        for x in 0..cols {
            f.rise(x, y, 0, 1);
        }
    }
}

#[test]
fn heat_reaches_the_top_row() {
    let mut f = FireField::new(10, 5);
    step(&mut f);
    for x in 0..10 {
        assert!(at(&f, x, 4) > 0);
    }
    for _ in 0..10 {
        step(&mut f);
    }
    let top: u32 = (0..10).map(|x| at(&f, x, 0) as u32).sum();
    assert!(top > 0, "Heat did not propagate to the top row");
    assert_eq!(at(&f, 0, 0), 26);
    assert!(f.heat.iter().all(|&h| h <= HEAT_MAX));
}

#[test]
fn ascend_matches_cell_by_cell_rising() {
    let mut a = FireField::new(4, 5);
    for x in 0..4 {
        a.kindle(x, 4, 30 - x as u8);
        a.kindle(x, 2, 12 + x as u8);
    }
    a.kindle(1, 3, 9);
    let mut b = FireField { cols: a.cols, rows: a.rows, heat: a.heat.clone() };
    let mut draws = Vec::new();
    for k in 0..16 {
        let offset = (k % 3) as i32 - 1;
        let decay = (k % 4) as u8;
        draws.push((offset, decay));
    }
    a.ascend(&draws);
    let mut k = 0;
    for y in 1..5 {
        for x in 0..4 {
            b.rise(x, y, draws[k].0, draws[k].1);
            k += 1;
        }
    }
    assert_eq!(a.heat, b.heat);
}

#[test]
fn heat_climbs_one_row_per_pass() {
    let mut f = FireField::new(3, 4);
    f.kindle(0, 3, 35);
    f.kindle(1, 3, 35);
    f.kindle(2, 3, 35);
    let draws = vec![(0, 1); 9];
    f.ascend(&draws);
    // Only the row just above the source has caught fire.
    for x in 0..3 {
        assert_eq!(at(&f, x, 3), 35);
        assert_eq!(at(&f, x, 2), 34);
        assert_eq!(at(&f, x, 1), 0);
        assert_eq!(at(&f, x, 0), 0);
    }
    f.ascend(&draws);
    for x in 0..3 {
        assert_eq!(at(&f, x, 1), 33);
        assert_eq!(at(&f, x, 0), 0);
    }
}

#[test]
fn ascend_on_a_single_row_changes_nothing() {
    let mut f = FireField::new(5, 1);
    f.kindle(2, 0, 20);
    f.ascend(&Vec::new());
    assert_eq!(at(&f, 2, 0), 20);
    assert_eq!(f.heat.iter().filter(|&&h| h > 0).count(), 1);
}
