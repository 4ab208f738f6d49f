use flame_core::logo::{layout_logo, LogoGlyph};

fn lines(text: &[&str]) -> Vec<Vec<char>> {
    text.iter().map(|l| l.chars().collect()).collect()
}

#[test]
fn logo_is_centred_and_skips_spaces() {
    let block = lines(&["AB", " C D"]);
    let glyphs = layout_logo(&block, 10, 6);
    // Widest line has 4 characters: origin (3, 2).
    assert_eq!(
        glyphs,
        vec![
            LogoGlyph { x: 3, y: 2, ch: 'A' },
            LogoGlyph { x: 4, y: 2, ch: 'B' },
            LogoGlyph { x: 4, y: 3, ch: 'C' },
            LogoGlyph { x: 6, y: 3, ch: 'D' },
        ]
    );
}

#[test]
fn oversized_logo_starts_at_the_corner() {
    let block = lines(&["█▀▀█", "", "x"]);
    let glyphs = layout_logo(&block, 2, 1);
    assert_eq!(glyphs.len(), 5);
    assert_eq!(glyphs[0], LogoGlyph { x: 0, y: 0, ch: '█' });
    assert_eq!(glyphs[3], LogoGlyph { x: 3, y: 0, ch: '█' });
    assert_eq!(glyphs[4], LogoGlyph { x: 0, y: 2, ch: 'x' });
}

#[test]
fn empty_logo_has_no_glyphs() {
    assert!(layout_logo(&Vec::new(), 80, 24).is_empty());
    assert!(layout_logo(&lines(&["   "]), 80, 24).is_empty());
}

#[test]
fn odd_room_rounds_down() {
    let glyphs = layout_logo(&lines(&["ab"]), 7, 4);
    assert_eq!(glyphs[0], LogoGlyph { x: 2, y: 1, ch: 'a' });
}
