use spandex::typography::items::{Glyph, Item, INFINITELY_NEGATIVE_PENALTY};
use spandex::typography::justification::{Justifier, NaiveJustifier};
use spandex::typography::paragraphs::Paragraph;
use spandex::typography::placement::WORD_SPACING;
use spandex::units::{Sp, PLUS_INFINITY};

fn glyph(c: char) -> Glyph {
    Glyph { glyph: c, font: 0, scale: Sp(10 * 65_536) }
}

fn boxed(c: char, width: i64) -> Item {
    Item::from_glyph(glyph(c), move |_: char, _: usize, _: Sp| Sp(width))
}

fn space() -> Item {
    Item::glue(Sp(WORD_SPACING), Sp(WORD_SPACING / 2), Sp(WORD_SPACING / 3))
}

fn marker() -> Item {
    Item::penalty(Sp(0), 0, false)
}

fn end() -> Vec<Item> {
    vec![
        Item::glue(Sp(0), Sp(PLUS_INFINITY), Sp(0)),
        Item::penalty(Sp(0), INFINITELY_NEGATIVE_PENALTY, false),
    ]
}

fn paragraph(mut items: Vec<Item>, finished: bool) -> Paragraph {
    if finished {
        items.extend(end());
    }
    Paragraph { items }
}

fn justify(paragraph: &Paragraph, text_width: i64) -> Vec<Vec<(char, i64)>> {
    assert!(NaiveJustifier::can_justify(paragraph, Sp(text_width)));
    NaiveJustifier::justify(paragraph, Sp(text_width))
        .iter()
        .map(|line| line.iter().map(|(g, at)| (g.glyph, at.0)).collect())
        .collect()
}

#[test]
fn three_words_that_fit_with_a_fourth_that_does_not() {
    let items = vec![
        marker(),
        boxed('a', 1_000_000),
        space(),
        boxed('b', 1_000_000),
        space(),
        boxed('c', 1_000_000),
        space(),
        boxed('d', 1_000_000),
    ];
    let lines = justify(&paragraph(items, true), 5_500_000);
    let gap = (5_500_000 - 3_000_000) / 2;
    assert_eq!(
        lines,
        vec![
            vec![('a', 0), ('b', 1_000_000 + gap), ('c', 2 * (1_000_000 + gap))],
            vec![('d', 0)],
        ]
    );
    assert_eq!(lines[0][2].1 + 1_000_000, 5_500_000);
}

#[test]
fn a_short_paragraph_is_one_line_with_the_fixed_spacing() {
    let items = vec![
        marker(),
        boxed('a', 1_000_000),
        space(),
        boxed('b', 700_000),
        space(),
        boxed('c', 1_300_000),
    ];
    let lines = justify(&paragraph(items, true), 50_000_000);
    assert_eq!(
        lines,
        vec![vec![
            ('a', 0),
            ('b', 1_000_000 + 491_520),
            ('c', 1_000_000 + 491_520 + 700_000 + 491_520),
        ]]
    );
}

#[test]
fn a_word_wider_than_the_text_is_not_split() {
    let items = vec![
        marker(),
        boxed('a', 1_000_000),
        space(),
        boxed('B', 2_000_000),
        boxed('C', 2_000_000),
    ];
    let lines = justify(&paragraph(items, true), 3_000_000);
    assert_eq!(lines, vec![vec![('a', 0)], vec![('B', 0), ('C', 2_000_000)]]);
    let (_, at) = lines[1][1];
    assert!(at + 2_000_000 > 3_000_000);
}

#[test]
fn a_first_word_wider_than_the_text_stays_on_its_line() {
    let items = vec![marker(), boxed('A', 4_000_000), boxed('B', 4_000_000), space(), boxed('c', 10)];
    let lines = justify(&paragraph(items, true), 3_000_000);
    assert_eq!(lines, vec![vec![('A', 0), ('B', 4_000_000)], vec![('c', 0)]]);
}

#[test]
fn an_empty_paragraph_is_one_empty_line() {
    let lines = justify(&paragraph(Vec::new(), false), 1_000_000);
    assert_eq!(lines, vec![Vec::new()]);
}

#[test]
fn a_paragraph_without_words_is_one_empty_line() {
    assert_eq!(justify(&paragraph(vec![marker()], false), 1_000_000), vec![Vec::new()]);
    assert_eq!(justify(&paragraph(vec![marker()], true), 1_000_000), vec![Vec::new()]);
    assert_eq!(
        justify(&paragraph(vec![marker(), marker(), marker()], false), 1_000_000),
        vec![Vec::new()]
    );
}

#[test]
fn the_first_item_is_skipped() {
    let items = vec![boxed('x', 10), boxed('a', 10), space()];
    assert_eq!(justify(&paragraph(items, false), 1_000_000), vec![vec![('a', 0)]]);
}

#[test]
fn a_word_that_no_glue_closes_joins_the_last_line() {
    let items = vec![marker(), boxed('a', 10), space(), boxed('b', 10)];
    assert_eq!(
        justify(&paragraph(items, false), 1_000_000),
        vec![vec![('a', 0), ('b', 10 + 491_520)]]
    );
}

#[test]
fn a_paragraph_of_one_open_word_is_one_line() {
    let items = vec![marker(), boxed('a', 10), boxed('b', 20), Item::penalty(Sp(0), 0, false)];
    assert_eq!(justify(&paragraph(items, false), 5), vec![vec![('a', 0), ('b', 10)]]);
}

#[test]
fn an_open_word_follows_the_word_that_was_deferred() {
    let items = vec![
        marker(),
        boxed('a', 600_000),
        space(),
        boxed('b', 600_000),
        space(),
        boxed('c', 600_000),
        boxed('d', 1),
    ];
    assert_eq!(
        justify(&paragraph(items, false), 1_000_000),
        vec![vec![('a', 0)], vec![('b', 0), ('c', 600_000 + 491_520), ('d', 1_200_000 + 491_520)]]
    );
}

#[test]
fn every_box_comes_out_once_where_glue_stands_between_words_only() {
    let text = "the quick brown fox jumps over the lazy dog";
    let mut items = vec![marker()];
    let mut expected = Vec::new();
    for c in text.chars() {
        if c == ' ' {
            items.push(space());
        } else {
            items.push(boxed(c, 400_000));
            expected.push(c);
        }
    }
    items.push(Item::penalty(Sp(0), INFINITELY_NEGATIVE_PENALTY, false));
    let lines = justify(&paragraph(items, false), 6_000_000);
    assert!(lines.len() > 1);
    let glyphs: Vec<char> = lines.iter().flatten().map(|&(c, _)| c).collect();
    assert_eq!(glyphs, expected);
}

#[test]
fn penalties_are_inert() {
    let items = vec![
        marker(),
        boxed('a', 10),
        Item::penalty(Sp(5), INFINITELY_NEGATIVE_PENALTY, true),
        boxed('b', 10),
        space(),
        Item::penalty(Sp(5), 100, false),
        boxed('c', 10),
    ];
    let lines = justify(&paragraph(items, true), 1_000_000);
    assert_eq!(lines, vec![vec![('a', 0), ('b', 10), ('c', 20 + 491_520)]]);
}

#[test]
fn consecutive_glue_makes_empty_words() {
    let items = vec![marker(), space(), space(), boxed('a', 10), space(), space(), boxed('b', 10)];
    let lines = justify(&paragraph(items, true), 100_000_000);
    assert_eq!(lines, vec![vec![('a', 2 * 491_520), ('b', 10 + 4 * 491_520)]]);
}

#[test]
fn glue_alone_overflows_without_division_by_zero() {
    let items = vec![marker(), space(), space(), space(), space()];
    let lines = justify(&paragraph(items, false), 500_000);
    assert_eq!(lines, vec![Vec::new(), Vec::new(), Vec::new()]);
}

#[test]
fn a_line_left_with_one_word_gets_the_fixed_spacing() {
    let items = vec![marker(), boxed('a', 600_000), space(), boxed('b', 600_000), space()];
    let lines = justify(&paragraph(items, false), 1_000_000);
    assert_eq!(lines, vec![vec![('a', 0)], vec![('b', 0)]]);
}

#[test]
fn a_box_that_overflows_defers_the_word_before_it() {
    let items = vec![
        marker(),
        boxed('a', 100_000),
        space(),
        boxed('b', 100_000),
        space(),
        boxed('c', 900_000),
        space(),
    ];
    let lines = justify(&paragraph(items, false), 1_500_000);
    assert_eq!(lines, vec![vec![('a', 0)], vec![('b', 0), ('c', 100_000 + 491_520)]]);
}

#[test]
fn words_wider_than_the_text_are_spread_with_a_negative_gap() {
    let items = vec![
        marker(),
        boxed('a', 100_000),
        space(),
        boxed('H', 1_000_000),
        space(),
        boxed('c', 50_000),
        space(),
        boxed('d', 50_000),
        space(),
    ];
    let lines = justify(&paragraph(items, false), 600_000);
    let gap = 600_000 - 1_050_000;
    assert_eq!(
        lines,
        vec![vec![('a', 0)], vec![('H', 0), ('c', 1_000_000 + gap)], vec![('d', 0)]]
    );
}

#[test]
fn an_empty_word_counts_among_the_words_of_a_line() {
    let items = vec![
        marker(),
        boxed('A', 3_000_000),
        space(),
        space(),
        boxed('b', 2_500_000),
        space(),
        boxed('c', 10),
        space(),
    ];
    let lines = justify(&paragraph(items, false), 2_000_000);
    assert_eq!(lines, vec![vec![('A', 0)], vec![], vec![('b', 0), ('c', 2_500_000 + 491_520)]]);
}

#[test]
fn every_box_of_a_delimited_paragraph_comes_out_once() {
    let text = "the quick brown fox jumps over the lazy dog and runs away";
    let mut items = vec![marker()];
    let mut expected = Vec::new();
    for c in text.chars() {
        if c == ' ' {
            items.push(space());
        } else {
            items.push(boxed(c, 400_000));
            expected.push(c);
        }
    }
    let lines = justify(&paragraph(items, true), 6_000_000);
    assert!(lines.len() > 1);
    let glyphs: Vec<char> = lines.iter().flatten().map(|&(c, _)| c).collect();
    assert_eq!(glyphs, expected);
}

#[test]
fn no_line_splits_a_word() {
    let text = "aa bbbb c dddddd ee f gggg hhh";
    let mut items = vec![marker()];
    for c in text.chars() {
        if c == ' ' {
            items.push(space());
        } else {
            items.push(boxed(c, 300_000));
        }
    }
    let lines = justify(&paragraph(items, true), 2_000_000);
    assert!(lines.len() > 2);
    for word in text.split(' ') {
        let letter = word.chars().next().unwrap();
        let holding: Vec<usize> = lines
            .iter()
            .map(|line| line.iter().filter(|&&(c, _)| c == letter).count())
            .filter(|&count| count > 0)
            .collect();
        assert_eq!(holding, vec![word.len()]);
    }
}

#[test]
fn the_glyphs_of_a_word_stand_side_by_side() {
    let items = vec![
        marker(),
        boxed('a', 100),
        boxed('b', 250),
        boxed('c', 50),
        space(),
        boxed('d', 70),
        boxed('e', 30),
    ];
    let lines = justify(&paragraph(items, true), 1_000_000);
    assert_eq!(
        lines,
        vec![vec![
            ('a', 0),
            ('b', 100),
            ('c', 350),
            ('d', 400 + 491_520),
            ('e', 470 + 491_520),
        ]]
    );
}

#[test]
fn justify_does_not_change_the_paragraph() {
    let items = vec![marker(), boxed('a', 10), space(), boxed('b', 20), space()];
    let before = items.clone();
    let paragraph = paragraph(items, false);
    let _ = justify(&paragraph, 15);
    assert_eq!(paragraph.items, before);
}

#[test]
fn can_justify_refuses_a_negative_box() {
    let items = vec![marker(), boxed('a', -1), space()];
    assert!(!NaiveJustifier::can_justify(&paragraph(items, false), Sp(100)));
}

#[test]
fn can_justify_overlooks_the_first_item() {
    let items = vec![boxed('x', -1), boxed('a', 1), space()];
    assert!(NaiveJustifier::can_justify(&paragraph(items, false), Sp(100)));
}

#[test]
fn can_justify_refuses_boxes_past_the_largest_length() {
    let items = vec![marker(), boxed('a', i64::MAX - 491_520), space(), boxed('b', 1)];
    assert!(!NaiveJustifier::can_justify(&paragraph(items, false), Sp(100)));
    let items = vec![marker(), boxed('a', i64::MAX - 491_520), space()];
    assert!(NaiveJustifier::can_justify(&paragraph(items, false), Sp(100)));
    let items = vec![marker(), boxed('a', i64::MAX), space()];
    assert!(!NaiveJustifier::can_justify(&paragraph(items, false), Sp(100)));
}

#[test]
fn can_justify_refuses_a_width_too_far_below_zero() {
    let items = vec![marker(), boxed('a', 10), space()];
    assert!(!NaiveJustifier::can_justify(&paragraph(items.clone(), false), Sp(i64::MIN + 9)));
    assert!(NaiveJustifier::can_justify(&paragraph(items, false), Sp(i64::MIN + 10)));
}

#[test]
fn can_justify_takes_a_negative_text_width() {
    let items = vec![marker(), boxed('a', 10), space(), boxed('b', 10), space()];
    let paragraph = paragraph(items, false);
    assert!(NaiveJustifier::can_justify(&paragraph, Sp(-1)));
    assert_eq!(justify(&paragraph, -1), vec![vec![('a', 0)], vec![('b', 0)]]);
}

#[test]
fn the_largest_admitted_paragraph_is_laid_out() {
    let items = vec![marker(), boxed('a', i64::MAX - 2 * 491_520), space(), boxed('b', 0), space()];
    let paragraph = paragraph(items, false);
    let lines = justify(&paragraph, i64::MAX);
    assert_eq!(lines, vec![vec![('a', 0), ('b', i64::MAX - 491_520)]]);
}
