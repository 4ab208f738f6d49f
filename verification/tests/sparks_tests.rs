use flame_core::field::FireField;
use flame_core::sparks::{column_heat, spark_source_row};

#[test]
fn spark_leaves_from_lowest_glowing_row() {
    let mut f = FireField::new(3, 12);
    // Searched rows are 6..10.
    f.kindle(1, 6, 10);
    f.kindle(1, 8, 24);
    f.kindle(1, 9, 25);
    assert_eq!(spark_source_row(&f, 1), Some(8));
    f.kindle(1, 9, 6);
    assert_eq!(spark_source_row(&f, 1), Some(9));
    // Rows outside the searched band do not count.
    f.kindle(0, 10, 12);
    f.kindle(0, 5, 12);
    assert_eq!(spark_source_row(&f, 0), None);
    f.kindle(2, 7, 5);
    assert_eq!(spark_source_row(&f, 2), None);
}

#[test]
fn small_fields_search_nothing() {
    let f = FireField::new(0, 4);
    assert_eq!(spark_source_row(&f, 0), None);
    let g = FireField::new(2, 2);
    assert_eq!(spark_source_row(&g, 1), None);
    let mut h = FireField::new(1, 5);
    h.kindle(0, 2, 7);
    assert_eq!(spark_source_row(&h, 0), Some(2));
}

#[test]
fn column_heat_sums_twelve_cells_below() {
    let mut f = FireField::new(2, 20);
    for y in 0..20 {
        f.kindle(0, y, y as u8);
    }
    // Cells 4..=15 below row 3.
    assert_eq!(column_heat(&f, 0, 3), (4..=15).sum::<u32>());
    // Near the bottom only the rows that exist count.
    assert_eq!(column_heat(&f, 0, 17), 18 + 19);
    assert_eq!(column_heat(&f, 0, 19), 0);
    assert_eq!(column_heat(&f, 1, 0), 0);
}
