//! Justifiers: algorithms that break a paragraph into lines and place the
//! glyphs of each line.

use crate::typography::breaking::{
    all_words, box_glyphs, broken_lines, flush, glyphs_at, glyphs_in, last_line,
    lemma_every_box_comes_out_once, lemma_lines_hold_whole_words, lines_of, naive_lines,
    opens_with_marker, spread, take_in, walk, walked, Walk,
};
use crate::typography::items::{Content, Glyph, Item};
use crate::typography::paragraphs::Paragraph;
use crate::typography::placement::{
    justified_spacing, lemma_line_width_grows, lemma_line_width_nonnegative,
    lemma_word_width_nonnegative, line_width, nonnegative, offsets_of, place_line, place_words,
    spread_words, word_width, words_of, BoxedGlyph, WORD_SPACING,
};
use crate::units::Sp;
use vstd::prelude::*;

verus! {

/// The sum of the widths of the boxes of `items`.
pub open spec fn boxes_width(items: Seq<Item>) -> int
    decreases items.len(),
{
    if items.len() == 0 {
        0
    } else if items.last().content is BoundingBox {
        boxes_width(items.drop_last()) + items.last().width.0
    } else {
        boxes_width(items.drop_last())
    }
}

/// The number of glues among `items`.
pub open spec fn glue_count(items: Seq<Item>) -> nat
    decreases items.len(),
{
    if items.len() == 0 {
        0
    } else if items.last().content is Glue {
        glue_count(items.drop_last()) + 1
    } else {
        glue_count(items.drop_last())
    }
}

/// No box of `items` has a negative width.
pub open spec fn boxes_nonnegative(items: Seq<Item>) -> bool {
    forall|i: int|
        0 <= i < items.len() && (#[trigger] items[i]).content is BoundingBox
            ==> items[i].width.0 >= 0
}

/// What the naive justifier needs of a paragraph and a width, so that every
/// length it computes fits the machine's integers: among the items after the
/// first no box is negative, the boxes with one `WORD_SPACING` for each glue
/// do not pass the largest length, and `text_width` less the boxes does not
/// pass the smallest.
pub open spec fn naive_admits(items: Seq<Item>, text_width: int) -> bool {
    &&& boxes_nonnegative(walked(items))
    &&& boxes_width(walked(items)) + glue_count(walked(items)) * WORD_SPACING <= i64::MAX
    &&& text_width - boxes_width(walked(items)) >= i64::MIN
}

/// The walk has not taken in more than `items` hold.
pub open spec fn within(walk: Walk, items: Seq<Item>) -> bool {
    &&& 0 <= walk.extent <= boxes_width(items) + glue_count(items) * WORD_SPACING
    &&& nonnegative(walk.line)
    &&& forall|j: int| 0 <= j < walk.word.len() ==> (#[trigger] walk.word[j]).width.0 >= 0
    &&& line_width(walk.line) + word_width(walk.word) <= boxes_width(items)
    &&& walk.line.len() <= glue_count(items)
}

/// The boxes and glues of the first `k` items are not more than those of all.
pub proof fn lemma_measures_grow(items: Seq<Item>, k: int)
    requires
        boxes_nonnegative(items),
        0 <= k <= items.len(),
    ensures
        boxes_nonnegative(items.take(k)),
        0 <= boxes_width(items.take(k)) <= boxes_width(items),
        glue_count(items.take(k)) <= glue_count(items),
    decreases items.len() - k,
{
    lemma_boxes_width_nonnegative(items.take(k));
    if k == items.len() {
        assert(items.take(k) =~= items);
    } else {
        lemma_measures_grow(items, k + 1);
        assert(items.take(k + 1).drop_last() =~= items.take(k));
        assert(items.take(k + 1).last() == items[k]);
    }
}

/// Boxes that are not negative have a width that is not negative.
proof fn lemma_boxes_width_nonnegative(items: Seq<Item>)
    requires
        boxes_nonnegative(items),
    ensures
        0 <= boxes_width(items),
    decreases items.len(),
{
    if items.len() > 0 {
        assert(items.last() == items[items.len() - 1]);
        lemma_boxes_width_nonnegative(items.drop_last());
    }
}

/// Taking an item in keeps the walk within the items taken.
proof fn lemma_take_in_within(before: Walk, items: Seq<Item>, item: Item)
    requires
        within(before, items),
        item.content is BoundingBox ==> item.width.0 >= 0,
    ensures
        within(take_in(before, item), items.push(item)),
{
    let after = take_in(before, item);
    assert(items.push(item).drop_last() =~= items);
    assert(items.push(item).last() == item);
    match item.content {
        Content::BoundingBox(glyph) => {
            assert(after.word.drop_last() =~= before.word);
        },
        Content::Glue { .. } => {
            assert(after.line.drop_last() =~= before.line);
            assert(after.line.last() == before.word);
            assert((glue_count(items) + 1) * WORD_SPACING == glue_count(items) * WORD_SPACING
                + WORD_SPACING) by (nonlinear_arith);
            assert(nonnegative(after.line)) by {
                assert forall|k: int, j: int|
                    0 <= k < after.line.len() && 0 <= j < after.line[k].len() implies (
                #[trigger] after.line[k][j]).width.0 >= 0 by {
                    if k < before.line.len() {
                        assert(before.line[k][j].width.0 >= 0);
                    } else {
                        assert(before.word[j].width.0 >= 0);
                    }
                }
            }
        },
        Content::Penalty { .. } => {},
    }
}

/// Completing a line keeps the walk within the items taken, and the line
/// that is completed has no negative box and is not wider than the boxes.
proof fn lemma_flush_within(before: Walk, items: Seq<Item>)
    requires
        within(before, items),
        before.line.len() > 1,
    ensures
        within(flush(before), items),
        nonnegative(before.line.drop_last()),
        0 <= line_width(before.line.drop_last()) <= boxes_width(items),
{
    let after = flush(before);
    let n = before.line.len() - 1;
    lemma_line_width_grows(before.line, n);
    assert(before.line.take(n) =~= before.line.drop_last());
    assert(after.line.drop_last() =~= Seq::<Seq<BoxedGlyph>>::empty());
    assert(after.line.last() == before.line.last());
    assert(line_width(Seq::<Seq<BoxedGlyph>>::empty()) == 0);
    assert(line_width(after.line) == word_width(before.line.last()));
    assert forall|j: int| 0 <= j < before.word.len() implies (#[trigger] before.word[j]).width.0
        >= 0 by {}
    lemma_word_width_nonnegative(before.word);
    assert(nonnegative(after.line)) by {
        assert forall|k: int, j: int|
            0 <= k < after.line.len() && 0 <= j < after.line[k].len() implies (
        #[trigger] after.line[k][j]).width.0 >= 0 by {
            assert(before.line[n][j].width.0 >= 0);
        }
    }
}

/// The last line of a walk within the items has no negative box, is not
/// wider than the boxes, and has no more gaps than the items have glues.
proof fn lemma_last_line_within(end: Walk, items: Seq<Item>)
    requires
        within(end, items),
    ensures
        nonnegative(last_line(end)),
        0 <= line_width(last_line(end)) <= boxes_width(items),
        last_line(end).len() - 1 <= glue_count(items),
{
    let line = last_line(end);
    if end.word.len() > 0 {
        assert(line.drop_last() =~= end.line);
        assert(line.last() == end.word);
        assert(nonnegative(line)) by {
            assert forall|k: int, j: int|
                0 <= k < line.len() && 0 <= j < line[k].len() implies (#[trigger] line[k][j]).width.0
                >= 0 by {
                if k < end.line.len() {
                    assert(end.line[k][j].width.0 >= 0);
                } else {
                    assert(end.word[j].width.0 >= 0);
                }
            }
        }
    }
    lemma_line_width_nonnegative(line);
    lemma_word_width_nonnegative(end.word);
}

/// An algorithm that breaks a paragraph into lines and places the glyphs of
/// each line from its left margin.
pub trait Justifier {
    /// The paragraphs and text widths that the algorithm lays out.
    spec fn admits(items: Seq<Item>, text_width: Sp) -> bool;

    /// Justifies the paragraph over `text_width`. Whatever the policy, every
    /// box of a paragraph that opens with a marker comes out in exactly one
    /// line, once, and in reading order.
    fn justify(paragraph: &Paragraph, text_width: Sp) -> (lines: Vec<Vec<(Glyph, Sp)>>)
        requires
            Self::admits(paragraph@, text_width),
        ensures
            opens_with_marker(paragraph@) ==> glyphs_at(lines_of(lines@).flatten())
                == box_glyphs(paragraph@),
    ;
}

/// A justifier that fills a line word by word and goes to the next line once
/// a word passes the text width.
pub struct NaiveJustifier;

impl Justifier for NaiveJustifier {
    open spec fn admits(items: Seq<Item>, text_width: Sp) -> bool {
        naive_admits(items, text_width.0 as int)
    }

    /// The lines are those of `naive_lines`: the walk over the items after
    /// the first, each completed line spread over `text_width`, the last
    /// line with its words `WORD_SPACING` apart. The last line ends with the
    /// word that no glue has closed. No line splits a word: the lines are
    /// made of the words of the items after the first, each whole and in its
    /// place, and each line holds the glyphs of its words and no others.
    fn justify(paragraph: &Paragraph, text_width: Sp) -> (lines: Vec<Vec<(Glyph, Sp)>>)
        ensures
            lines_of(lines@) == naive_lines(paragraph@, text_width.0 as int),
            broken_lines(paragraph@, text_width.0 as int).flatten() == all_words(
                walked(paragraph@),
            ),
            lines.len() == broken_lines(paragraph@, text_width.0 as int).len(),
            forall|k: int|
                0 <= k < lines.len() ==> glyphs_at(#[trigger] lines_of(lines@)[k]) == glyphs_in(
                    broken_lines(paragraph@, text_width.0 as int)[k].flatten(),
                ),
    {
        let items = &paragraph.items;
        let ghost rest = walked(paragraph@);
        let ghost width = text_width.0 as int;
        let mut ret: Vec<Vec<(Glyph, Sp)>> = Vec::new();
        let mut current_line: Vec<Vec<BoxedGlyph>> = Vec::new();
        let mut current_word: Vec<BoxedGlyph> = Vec::new();
        let mut current_x = Sp(0);
        let ghost mut state = walk(rest.take(0), width);
        let mut i: usize = 1;
        proof {
            assert(lines_of(ret@) =~= spread(state.lines, width));
            assert(words_of(current_line@) =~= state.line);
            lemma_measures_grow(rest, 0);
        }
        while i < items.len()
            invariant
                1 <= i,
                i <= items.len() || i == 1,
                items@ == paragraph@,
                rest == walked(paragraph@),
                width == text_width.0,
                naive_admits(paragraph@, width),
                state == walk(rest.take(i - 1), width),
                within(state, rest.take(i - 1)),
                lines_of(ret@) == spread(state.lines, width),
                words_of(current_line@) == state.line,
                current_word@ == state.word,
                current_x.0 == state.extent,
            decreases items.len() - i,
        {
            let item = items[i];
            let ghost taken = take_in(state, item);
            proof {
                assert(rest.take(i as int).drop_last() =~= rest.take(i - 1));
                assert(rest.take(i as int).last() == item);
                assert(rest.take(i as int) =~= rest.take(i - 1).push(item));
                assert(rest[i - 1] == item);
                lemma_take_in_within(state, rest.take(i - 1), item);
                lemma_measures_grow(rest, i as int);
            }
            match item.content {
                Content::BoundingBox(glyph) => {
                    current_x = current_x + item.width;
                    current_word.push(BoxedGlyph { glyph, width: item.width });
                },
                Content::Glue { .. } => {
                    proof {
                        assert(words_of(current_line@.push(current_word)) =~= words_of(
                            current_line@,
                        ).push(current_word@));
                    }
                    current_line.push(current_word);
                    current_x = current_x + Sp(WORD_SPACING);
                    current_word = Vec::new();
                },
                Content::Penalty { .. } => {},
            }
            assert(words_of(current_line@) == taken.line);
            assert(current_word@ == taken.word);
            assert(current_x.0 == taken.extent);
            if current_x > text_width && current_line.len() > 1 {
                proof {
                    lemma_flush_within(taken, rest.take(i as int));
                    assert(words_of(current_line@.drop_last()) =~= taken.line.drop_last());
                    assert(glue_count(rest) * WORD_SPACING >= glue_count(rest)) by (nonlinear_arith);
                }
                current_x = Sp(0);
                let last_word = current_line.pop().unwrap();
                let placed = spread_words(&current_line, text_width);
                proof {
                    assert(lines_of(ret@.push(placed)) =~= lines_of(ret@).push(offsets_of(placed@)));
                    assert(spread(taken.lines.push(taken.line.drop_last()), width) =~= spread(
                        taken.lines,
                        width,
                    ).push(
                        place_line(
                            taken.line.drop_last(),
                            justified_spacing(taken.line.drop_last(), width),
                        ),
                    ));
                }
                ret.push(placed);
                current_line = Vec::new();
                current_line.push(last_word);
                proof {
                    state = flush(taken);
                    assert(words_of(current_line@) =~= state.line);
                }
            } else {
                proof {
                    state = taken;
                }
            }
            i += 1;
        }
        proof {
            assert(rest.take(i - 1) =~= rest);
            lemma_last_line_within(state, rest);
        }
        if current_word.len() > 0 {
            proof {
                assert(words_of(current_line@.push(current_word)) =~= words_of(
                    current_line@,
                ).push(current_word@));
            }
            current_line.push(current_word);
        }
        let placed = place_words(&current_line, Sp(WORD_SPACING));
        proof {
            assert(lines_of(ret@.push(placed)) =~= lines_of(ret@).push(offsets_of(placed@)));
            lemma_lines_hold_whole_words(paragraph@, width);
            if opens_with_marker(paragraph@) {
                lemma_every_box_comes_out_once(paragraph@, width);
            }
        }
        ret.push(placed);
        ret
    }
}

impl NaiveJustifier {
    /// Whether the naive justifier admits the paragraph and the text width.
    pub fn can_justify(paragraph: &Paragraph, text_width: Sp) -> (admitted: bool)
        ensures
            admitted == naive_admits(paragraph@, text_width.0 as int),
    {
        let items = &paragraph.items;
        let ghost rest = walked(paragraph@);
        let mut boxes: i64 = 0;
        let mut extent: i64 = 0;
        let mut i: usize = 1;
        while i < items.len()
            invariant
                1 <= i,
                i <= items.len() || i == 1,
                items@ == paragraph@,
                rest == walked(paragraph@),
                boxes_nonnegative(rest.take(i - 1)),
                boxes == boxes_width(rest.take(i - 1)),
                extent == boxes + glue_count(rest.take(i - 1)) * WORD_SPACING,
                0 <= boxes <= extent,
            decreases items.len() - i,
        {
            let item = items[i];
            proof {
                assert(rest.take(i as int).drop_last() =~= rest.take(i - 1));
                assert(rest.take(i as int).last() == item);
                assert(rest[i - 1] == item);
                assert((glue_count(rest.take(i - 1)) + 1) * WORD_SPACING == glue_count(
                    rest.take(i - 1),
                ) * WORD_SPACING + WORD_SPACING) by (nonlinear_arith);
                if boxes_nonnegative(rest) {
                    lemma_measures_grow(rest, i as int);
                    assert(glue_count(rest.take(i as int)) * WORD_SPACING <= glue_count(rest)
                        * WORD_SPACING) by (nonlinear_arith)
                        requires
                            glue_count(rest.take(i as int)) <= glue_count(rest),
                    ;
                }
            }
            match item.content {
                Content::BoundingBox(_) => {
                    if item.width.0 < 0 || item.width.0 > i64::MAX - extent {
                        return false;
                    }
                    boxes = boxes + item.width.0;
                    extent = extent + item.width.0;
                },
                Content::Glue { .. } => {
                    if WORD_SPACING > i64::MAX - extent {
                        return false;
                    }
                    extent = extent + WORD_SPACING;
                },
                Content::Penalty { .. } => {},
            }
            proof {
                assert forall|j: int|
                    0 <= j < rest.take(i as int).len() && (#[trigger] rest.take(
                        i as int,
                    )[j]).content is BoundingBox implies rest.take(i as int)[j].width.0 >= 0 by {
                    if j < i - 1 {
                        assert(rest.take(i - 1)[j] == rest.take(i as int)[j]);
                    }
                }
            }
            i += 1;
        }
        proof {
            assert(rest.take(i - 1) =~= rest);
        }
        text_width.0 >= i64::MIN + boxes
    }
}

} // verus!
