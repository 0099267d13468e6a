use spandex::typography::items::Glyph;
use spandex::typography::placement::{
    occupied_width, place_words, spread_words, word_space, BoxedGlyph, WORD_SPACING,
};
use spandex::units::{Sp, SP_PER_PT};

fn glyph(c: char) -> Glyph {
    Glyph { glyph: c, font: 0, scale: Sp(10 * 65_536) }
}

fn word(boxes: &[(char, i64)]) -> Vec<BoxedGlyph> {
    boxes.iter().map(|&(c, width)| BoxedGlyph { glyph: glyph(c), width: Sp(width) }).collect()
}

#[test]
fn word_spacing_is_seven_and_a_half_points() {
    assert_eq!(WORD_SPACING, 491_520);
    assert_eq!(WORD_SPACING, 15 * SP_PER_PT / 2);
}

#[test]
fn occupied_width_sums_the_boxes() {
    let line = vec![word(&[('a', 10), ('b', 20)]), word(&[]), word(&[('c', 30)])];
    assert_eq!(occupied_width(&line), Sp(60));
    assert_eq!(occupied_width(&Vec::new()), Sp(0));
}

#[test]
fn word_space_shares_the_free_width_among_the_gaps() {
    let line = vec![word(&[('a', 10)]), word(&[('b', 20)]), word(&[('c', 30)])];
    assert_eq!(word_space(&line, Sp(100)), Sp(20));
    assert_eq!(word_space(&line, Sp(101)), Sp(20));
    assert_eq!(word_space(&line, Sp(102)), Sp(21));
}

#[test]
fn word_space_rounds_a_negative_share_toward_zero() {
    let line = vec![word(&[('a', 10)]), word(&[('b', 20)]), word(&[('c', 30)])];
    assert_eq!(word_space(&line, Sp(57)), Sp(-1));
    assert_eq!(word_space(&line, Sp(59)), Sp(0));
    assert_eq!(word_space(&line, Sp(-40)), Sp(-50));
}

#[test]
fn word_space_of_one_word_is_the_fixed_spacing() {
    let line = vec![word(&[('a', 10)])];
    assert_eq!(word_space(&line, Sp(100)), Sp(491_520));
    assert_eq!(word_space(&line, Sp(-100)), Sp(491_520));
    assert_eq!(word_space(&line, Sp(i64::MIN)), Sp(491_520));
}

#[test]
fn word_space_of_no_word_is_the_fixed_spacing() {
    assert_eq!(word_space(&Vec::new(), Sp(100)), Sp(491_520));
}

#[test]
fn place_words_puts_each_glyph_after_what_stands_before_it() {
    let line = vec![word(&[('a', 10), ('b', 20)]), word(&[('c', 30)]), word(&[('d', 5), ('e', 6)])];
    let placed = place_words(&line, Sp(7));
    assert_eq!(
        placed,
        vec![
            (glyph('a'), Sp(0)),
            (glyph('b'), Sp(10)),
            (glyph('c'), Sp(37)),
            (glyph('d'), Sp(74)),
            (glyph('e'), Sp(79)),
        ]
    );
}

#[test]
fn place_words_counts_a_spacing_for_an_empty_word() {
    let line = vec![word(&[]), word(&[('a', 10)]), word(&[]), word(&[]), word(&[('b', 1)])];
    let placed = place_words(&line, Sp(100));
    assert_eq!(placed, vec![(glyph('a'), Sp(100)), (glyph('b'), Sp(410))]);
}

#[test]
fn place_words_takes_a_negative_spacing() {
    let line = vec![word(&[('a', 10)]), word(&[('b', 10)]), word(&[('c', 10)])];
    let placed = place_words(&line, Sp(-15));
    assert_eq!(placed, vec![(glyph('a'), Sp(0)), (glyph('b'), Sp(-5)), (glyph('c'), Sp(-10))]);
}

#[test]
fn place_words_of_no_word_places_nothing() {
    assert_eq!(place_words(&Vec::new(), Sp(491_520)), Vec::new());
}

#[test]
fn place_words_reaches_the_largest_length() {
    let line = vec![word(&[('a', 1)]), word(&[('b', 1)])];
    let placed = place_words(&line, Sp(i64::MAX - 2));
    assert_eq!(placed, vec![(glyph('a'), Sp(0)), (glyph('b'), Sp(i64::MAX - 1))]);
}

#[test]
fn three_one_glyph_words_are_spread_with_a_uniform_gap() {
    let line = vec![
        word(&[('a', 1_000_000)]),
        word(&[('b', 700_000)]),
        word(&[('c', 1_300_000)]),
    ];
    let placed = spread_words(&line, Sp(5_500_000));
    let gap = (5_500_000 - 3_000_000) / 2;
    assert_eq!(gap, 1_250_000);
    assert_eq!(
        placed,
        vec![
            (glyph('a'), Sp(0)),
            (glyph('b'), Sp(1_000_000 + gap)),
            (glyph('c'), Sp(1_000_000 + gap + 700_000 + gap)),
        ]
    );
    let (last, at) = placed[2];
    assert_eq!(last, glyph('c'));
    assert_eq!(at.0 + 1_300_000, 5_500_000);
}

#[test]
fn a_lone_word_is_spread_without_division() {
    let line = vec![word(&[('a', 10), ('b', 20)])];
    let placed = spread_words(&line, Sp(5));
    assert_eq!(placed, vec![(glyph('a'), Sp(0)), (glyph('b'), Sp(10))]);
    assert_eq!(spread_words(&line, Sp(1_000_000)), placed);
}

#[test]
fn spread_words_keeps_every_glyph_in_order() {
    let line = vec![word(&[('a', 10), ('b', 20)]), word(&[]), word(&[('c', 30)])];
    let placed = spread_words(&line, Sp(1_000));
    let glyphs: Vec<char> = placed.iter().map(|(g, _)| g.glyph).collect();
    assert_eq!(glyphs, vec!['a', 'b', 'c']);
}
