use flame_core::stars::{star_glyph, star_quota};

#[test]
fn star_quota_is_clamped() {
    assert_eq!(star_quota(80, 24), 80);
    assert_eq!(star_quota(40, 20), 40);
    assert_eq!(star_quota(10, 10), 10);
    assert_eq!(star_quota(0, 0), 10);
    assert_eq!(star_quota(21, 20), 21);
    assert_eq!(star_quota(1000, 1000), 80);
}

#[test]
fn star_glyphs_cycle() {
    assert_eq!(star_glyph(0), '✦');
    assert_eq!(star_glyph(1), '.');
    assert_eq!(star_glyph(3), '•');
    assert_eq!(star_glyph(7), '✦');
    assert_eq!(star_glyph(21), '✦');
    assert_eq!(star_glyph(9), '•');
    assert_eq!(star_glyph(10), '.');
}
