use flame_core::palette::get_palette;

#[test]
fn test_get_palette_corners() {
    let accent = (0, 128, 255);
    let palette = get_palette(accent);
    // Index 0 must always be black
    assert_eq!(palette[0], (0, 0, 0));
    // Index 35 is white-hot, so it should have maximum values
    assert_eq!(palette[35].0, 255);
    assert!(palette[35].1 >= 240);
    assert!(palette[35].2 >= 200);

    // Let's verify monotonicity of red component or total intensity
    for i in 1..36 {
        let (r, g, b) = palette[i];
        let intensity = r as u32 + g as u32 + b as u32;
        let (r_prev, g_prev, b_prev) = palette[i - 1];
        let intensity_prev = r_prev as u32 + g_prev as u32 + b_prev as u32;
        // The overall intensity should generally be non-decreasing (going from black to white-hot)
        assert!(intensity >= intensity_prev, "Intensity decreased at index {}", i);
    }
}

/// The ramp as a floating-point interpolation would compute it.
fn float_ramp(i: usize) -> (u8, u8, u8) {
    if i == 0 {
        (0, 0, 0)
    } else if i < 12 {
        let t = i as f32 / 12.0;
        ((200.0 * t) as u8, 0, 0)
    } else if i < 24 {
        let t = (i - 12) as f32 / 12.0;
        ((200.0 + 55.0 * t) as u8, (140.0 * t) as u8, 0)
    } else if i < 32 {
        let t = (i - 24) as f32 / 8.0;
        (255, (140.0 + 90.0 * t) as u8, (50.0 * t) as u8)
    } else {
        let t = (i - 32) as f32 / 3.0;
        (255, (230.0 + 25.0 * t) as u8, (50.0 + 190.0 * t) as u8)
    }
}

#[test]
fn palette_agrees_with_float_interpolation() {
    let palette = get_palette((10, 20, 30));
    for i in 0..36 {
        assert_eq!(palette[i], float_ramp(i), "entry {}", i);
    }
}

#[test]
fn palette_exact_entries() {
    let palette = get_palette((0, 0, 0));
    assert_eq!(palette[1], (16, 0, 0));
    assert_eq!(palette[11], (183, 0, 0));
    assert_eq!(palette[12], (200, 0, 0));
    assert_eq!(palette[15], (213, 35, 0));
    assert_eq!(palette[24], (255, 140, 0));
    assert_eq!(palette[28], (255, 185, 25));
    assert_eq!(palette[32], (255, 230, 50));
    assert_eq!(palette[33], (255, 238, 113));
    assert_eq!(palette[34], (255, 246, 176));
    assert_eq!(palette[35], (255, 255, 240));
}

#[test]
fn palette_channels_never_decrease() {
    let palette = get_palette((1, 2, 3));
    for i in 1..36 {
        assert!(palette[i].0 >= palette[i - 1].0);
        assert!(palette[i].1 >= palette[i - 1].1);
        assert!(palette[i].2 >= palette[i - 1].2);
    }
}

#[test]
fn palette_ignores_accent() {
    assert_eq!(get_palette((0, 0, 0)), get_palette((255, 17, 99)));
}
