use trixel::font::{TrixelFont, GLYPH_HEIGHT, GLYPH_WIDTH};
use trixel::solver::ConstraintMask;

fn cm(x: usize, y: usize, s: u8) -> ConstraintMask {
    ConstraintMask { x, y, required_state: s }
}

fn corner_glyph() -> [[Option<u8>; 5]; 7] {
    let mut g = [[None; 5]; 7];
    g[0][0] = Some(0);
    g[6][4] = Some(2);
    g
}

#[test]
fn glyph_dimensions() {
    assert_eq!((GLYPH_WIDTH, GLYPH_HEIGHT), (5, 7));
}

#[test]
fn glyph_cells_without_border_at_origin() {
    let out = TrixelFont::constraints_for_glyphs(&[corner_glyph(), corner_glyph()], 0, 0);
    // the second glyph starts one gap column after the first
    assert_eq!(out, vec![cm(0, 0, 0), cm(4, 6, 2), cm(6, 0, 0), cm(10, 6, 2)]);
}

#[test]
fn empty_text_has_no_constraints() {
    assert!(TrixelFont::constraints_for_glyphs(&[], 3, 3).is_empty());
}

#[test]
fn border_surrounds_text_block() {
    let out = TrixelFont::constraints_for_glyphs(&[corner_glyph()], 2, 3);
    assert_eq!(out.len(), 2 + 4 * 7);
    assert_eq!(&out[..2], &[cm(2, 3, 0), cm(6, 9, 2)]);
    // top row y = 2, x = 1..=7
    let top: Vec<_> = (1..=7).map(|x| cm(x, 2, 2)).collect();
    assert_eq!(&out[2..9], &top[..]);
    // bottom row y = 10
    let bottom: Vec<_> = (1..=7).map(|x| cm(x, 10, 2)).collect();
    assert_eq!(&out[9..16], &bottom[..]);
    // left column x = 1, y = 3..10
    let left: Vec<_> = (3..10).map(|y| cm(1, y, 2)).collect();
    assert_eq!(&out[16..23], &left[..]);
    // right column x = 7
    let right: Vec<_> = (3..10).map(|y| cm(7, y, 2)).collect();
    assert_eq!(&out[23..30], &right[..]);
}

#[test]
fn no_border_on_the_top_or_left_edge() {
    let out = TrixelFont::constraints_for_glyphs(&[corner_glyph()], 0, 5);
    assert_eq!(out, vec![cm(0, 5, 0), cm(4, 11, 2)]);
    let out = TrixelFont::constraints_for_glyphs(&[corner_glyph()], 5, 0);
    assert_eq!(out, vec![cm(5, 0, 0), cm(9, 6, 2)]);
}

#[test]
fn laid_out_text_names_each_cell_once_with_a_light_border() {
    let mut full = [[Some(0u8); 5]; 7];
    full[3][2] = Some(2);
    let glyphs = vec![full, corner_glyph(), full];
    let cs = TrixelFont::constraints_for_glyphs(&glyphs, 4, 3);
    let glyph_count = cs.iter().take_while(|c| c.y >= 3 && c.y < 10 && c.x >= 4 && c.x < 4 + 17).count();
    for i in 0..cs.len() {
        for j in (i + 1)..cs.len() {
            assert!(!(cs[i].x == cs[j].x && cs[i].y == cs[j].y), "cell named twice: {:?}", cs[i]);
        }
    }
    for c in &cs[glyph_count..] {
        assert_eq!(c.required_state, 2);
    }
    // top-left border corner and the gap column after the last glyph
    assert!(cs.contains(&cm(3, 2, 2)));
    assert!(cs.contains(&cm(4 + 17, 5, 2)));
}
