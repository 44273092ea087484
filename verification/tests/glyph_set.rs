use fontcore::glyph_set::GlyphSet;
use std::collections::BTreeSet;

fn set(glyphs: &[u32]) -> GlyphSet {
    GlyphSet::Multiple(glyphs.iter().copied().collect::<BTreeSet<u32>>())
}

#[test]
fn from_one_glyph() {
    assert_eq!(GlyphSet::from(7), GlyphSet::Single(7));
}

#[test]
fn from_several_glyphs() {
    assert_eq!(GlyphSet::from_glyphs(vec![3, 1, 3, 2]), set(&[1, 2, 3]));
    assert_eq!(GlyphSet::from_glyphs(vec![]), set(&[]));
    assert_eq!(GlyphSet::from_glyphs(vec![5]), set(&[5]));
    assert_ne!(GlyphSet::from_glyphs(vec![5]), GlyphSet::Single(5));
}

#[test]
fn make_set_turns_a_glyph_into_a_set() {
    let mut glyphs = GlyphSet::Single(4);
    glyphs.make_set();
    assert_eq!(glyphs, set(&[4]));
    glyphs.make_set();
    assert_eq!(glyphs, set(&[4]));
}

#[test]
fn combine_a_glyph_with_a_glyph() {
    let mut glyphs = GlyphSet::Single(4);
    glyphs.combine(GlyphSet::Single(9));
    assert_eq!(glyphs, set(&[4, 9]));
    let mut same = GlyphSet::Single(4);
    same.combine(GlyphSet::Single(4));
    assert_eq!(same, set(&[4]));
}

#[test]
fn combine_with_a_set() {
    let mut glyphs = GlyphSet::Single(4);
    glyphs.combine(set(&[1, 4, 6]));
    assert_eq!(glyphs, set(&[1, 4, 6]));
    let mut more = set(&[10, 20]);
    more.combine(set(&[15, 20, 25]));
    assert_eq!(more, set(&[10, 15, 20, 25]));
    more.combine(GlyphSet::Single(1));
    assert_eq!(more, set(&[1, 10, 15, 20, 25]));
    more.combine(set(&[]));
    assert_eq!(more, set(&[1, 10, 15, 20, 25]));
}

#[test]
fn add_the_same_glyph_keeps_a_single_glyph() {
    let mut glyphs = GlyphSet::Single(4);
    glyphs.add(4);
    assert_eq!(glyphs, GlyphSet::Single(4));
}

#[test]
fn add_another_glyph_makes_a_set() {
    let mut glyphs = GlyphSet::Single(4);
    glyphs.add(5);
    assert_eq!(glyphs, set(&[4, 5]));
    glyphs.add(4);
    assert_eq!(glyphs, set(&[4, 5]));
    glyphs.add(1);
    assert_eq!(glyphs, set(&[1, 4, 5]));
}

#[test]
fn clone_keeps_kind_and_glyphs() {
    assert_eq!(GlyphSet::Single(3).clone(), GlyphSet::Single(3));
    assert_eq!(set(&[1, 2]).clone(), set(&[1, 2]));
}
