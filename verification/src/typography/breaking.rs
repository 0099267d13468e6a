//! How the naive justifier breaks a paragraph into lines.
//!
//! The justifier walks the items after the first. Boxes gather into a word, a
//! glue closes the word onto the current line, and a penalty is passed over.
//! Once the running extent passes the text width and the line holds more than
//! one word, the line is completed without its last word, which opens the
//! next line. What is left after the last item is the last line: the words
//! still on the line, and the word that no glue has closed.
//!
//! The walk is stated here as a function of the items, with what holds of
//! it: no line splits a word, and no box after the first item is lost or
//! comes out twice.

use crate::typography::items::{Content, Glyph, Item};
use crate::typography::placement::{
    justified_spacing, line_width, offsets_of, place_line, place_word, BoxedGlyph, WORD_SPACING,
};
use crate::units::Sp;
use vstd::prelude::*;

verus! {

/// The items that a justifier walks: all but the marker that opens the
/// paragraph.
pub open spec fn walked(items: Seq<Item>) -> Seq<Item> {
    if items.len() > 0 {
        items.subrange(1, items.len() as int)
    } else {
        items
    }
}

/// Where the naive justifier stands after some items.
pub struct Walk {
    /// The lines that are complete, each as its words.
    pub lines: Seq<Seq<Seq<BoxedGlyph>>>,
    /// The words of the line that is being filled.
    pub line: Seq<Seq<BoxedGlyph>>,
    /// The boxes since the last glue.
    pub word: Seq<BoxedGlyph>,
    /// The running extent: the widths and spacings taken in since the last
    /// line was completed.
    pub extent: int,
}

/// Takes one item in: a box joins the current word, a glue closes the word
/// and adds `WORD_SPACING` to the extent, a penalty changes nothing.
pub open spec fn take_in(walk: Walk, item: Item) -> Walk {
    match item.content {
        Content::BoundingBox(glyph) => Walk {
            word: walk.word.push(BoxedGlyph { glyph, width: item.width }),
            extent: walk.extent + item.width.0,
            ..walk
        },
        Content::Glue { .. } => Walk {
            line: walk.line.push(walk.word),
            word: Seq::empty(),
            extent: walk.extent + WORD_SPACING,
            ..walk
        },
        Content::Penalty { .. } => walk,
    }
}

/// The extent is past `text_width` and the line has a word to give up.
pub open spec fn overflows(walk: Walk, text_width: int) -> bool {
    walk.extent > text_width && walk.line.len() > 1
}

/// Completes the line without its last word, which opens the next line. The
/// extent starts again at zero.
pub open spec fn flush(walk: Walk) -> Walk {
    Walk {
        lines: walk.lines.push(walk.line.drop_last()),
        line: seq![walk.line.last()],
        word: walk.word,
        extent: 0,
    }
}

/// One step of the walk: take the item in, then complete the line if it
/// overflows.
pub open spec fn step(walk: Walk, item: Item, text_width: int) -> Walk {
    let taken = take_in(walk, item);
    if overflows(taken, text_width) {
        flush(taken)
    } else {
        taken
    }
}

/// The walk over `items`, from nothing.
pub open spec fn walk(items: Seq<Item>, text_width: int) -> Walk
    decreases items.len(),
{
    if items.len() == 0 {
        Walk { lines: Seq::empty(), line: Seq::empty(), word: Seq::empty(), extent: 0 }
    } else {
        step(walk(items.drop_last(), text_width), items.last(), text_width)
    }
}

/// The words of the last line: those left on the line where the walk ends,
/// and after them the word that no glue has closed, where it holds a box.
pub open spec fn last_line(end: Walk) -> Seq<Seq<BoxedGlyph>> {
    if end.word.len() > 0 {
        end.line.push(end.word)
    } else {
        end.line
    }
}

/// The lines into which the naive justifier breaks a paragraph, each as its
/// words: the lines that the walk completed, then the last line.
pub open spec fn broken_lines(items: Seq<Item>, text_width: int) -> Seq<Seq<Seq<BoxedGlyph>>> {
    let end = walk(walked(items), text_width);
    end.lines.push(last_line(end))
}

/// Each of `lines` spread over `text_width`.
pub open spec fn spread(lines: Seq<Seq<Seq<BoxedGlyph>>>, text_width: int) -> Seq<
    Seq<(Glyph, int)>,
> {
    lines.map_values(
        |line: Seq<Seq<BoxedGlyph>>| place_line(line, justified_spacing(line, text_width)),
    )
}

/// The lines that the naive justifier makes of a paragraph. A line that the
/// walk completed is spread over `text_width`; the last line has its words
/// `WORD_SPACING` apart.
pub open spec fn naive_lines(items: Seq<Item>, text_width: int) -> Seq<Seq<(Glyph, int)>> {
    let end = walk(walked(items), text_width);
    spread(end.lines, text_width).push(place_line(last_line(end), WORD_SPACING as int))
}

/// The lines of a result, each glyph with its offset as an integer.
pub open spec fn lines_of(lines: Seq<Vec<(Glyph, Sp)>>) -> Seq<Seq<(Glyph, int)>> {
    lines.map_values(|line: Vec<(Glyph, Sp)>| offsets_of(line@))
}

/// The words that the glue of `items` closes, in order.
pub open spec fn closed_words(items: Seq<Item>) -> Seq<Seq<BoxedGlyph>>
    decreases items.len(),
{
    if items.len() == 0 {
        Seq::empty()
    } else if items.last().content is Glue {
        closed_words(items.drop_last()).push(open_word(items.drop_last()))
    } else {
        closed_words(items.drop_last())
    }
}

/// The boxes after the last glue of `items`: the word that no glue has
/// closed.
pub open spec fn open_word(items: Seq<Item>) -> Seq<BoxedGlyph>
    decreases items.len(),
{
    if items.len() == 0 {
        Seq::empty()
    } else {
        match items.last().content {
            Content::BoundingBox(glyph) => open_word(items.drop_last()).push(
                BoxedGlyph { glyph, width: items.last().width },
            ),
            Content::Glue { .. } => Seq::empty(),
            Content::Penalty { .. } => open_word(items.drop_last()),
        }
    }
}

/// The words of `items`, in order: those that a glue closes, and after them
/// the open word, where it holds a box.
pub open spec fn all_words(items: Seq<Item>) -> Seq<Seq<BoxedGlyph>> {
    if open_word(items).len() > 0 {
        closed_words(items).push(open_word(items))
    } else {
        closed_words(items)
    }
}

/// The glyphs of the boxes of `items`, in order.
pub open spec fn box_glyphs(items: Seq<Item>) -> Seq<Glyph>
    decreases items.len(),
{
    if items.len() == 0 {
        Seq::empty()
    } else {
        match items.last().content {
            Content::BoundingBox(glyph) => box_glyphs(items.drop_last()).push(glyph),
            _ => box_glyphs(items.drop_last()),
        }
    }
}

/// The glyphs of a run of boxes.
pub open spec fn glyphs_in(boxes: Seq<BoxedGlyph>) -> Seq<Glyph> {
    boxes.map_values(|boxed: BoxedGlyph| boxed.glyph)
}

/// The glyphs of a placed line.
pub open spec fn glyphs_at(placed: Seq<(Glyph, int)>) -> Seq<Glyph> {
    placed.map_values(|at: (Glyph, int)| at.0)
}

/// The lines of a walk, taken together, are the words that the glue closed,
/// each whole and in its place; the current word is the one left open.
pub proof fn lemma_walk_keeps_words(items: Seq<Item>, text_width: int)
    ensures
        walk(items, text_width).lines.flatten() + walk(items, text_width).line == closed_words(
            items,
        ),
        walk(items, text_width).word == open_word(items),
    decreases items.len(),
{
    broadcast use Seq::lemma_flatten_push;

    if items.len() == 0 {
        assert(Seq::<Seq<Seq<BoxedGlyph>>>::empty().flatten() + Seq::<Seq<BoxedGlyph>>::empty()
            =~= Seq::<Seq<BoxedGlyph>>::empty());
    } else {
        lemma_walk_keeps_words(items.drop_last(), text_width);
        let before = walk(items.drop_last(), text_width);
        let taken = take_in(before, items.last());
        assert(taken.lines.flatten() + taken.line =~= closed_words(items));
        if overflows(taken, text_width) {
            let after = flush(taken);
            assert(taken.line =~= taken.line.drop_last().push(taken.line.last()));
            assert(after.lines.flatten() + after.line =~= taken.lines.flatten() + taken.line);
        }
    }
}

/// Placing a line keeps its glyphs and their order.
pub proof fn lemma_placing_keeps_glyphs(line: Seq<Seq<BoxedGlyph>>, spacing: int)
    ensures
        glyphs_at(place_line(line, spacing)) == glyphs_in(line.flatten()),
    decreases line.len(),
{
    broadcast use Seq::lemma_flatten_push;

    if line.len() == 0 {
        assert(glyphs_at(place_line(line, spacing)) =~= glyphs_in(line.flatten()));
    } else {
        lemma_placing_keeps_glyphs(line.drop_last(), spacing);
        let start = line_width(line.drop_last()) + (line.len() - 1) * spacing;
        assert(line =~= line.drop_last().push(line.last()));
        assert(line.flatten() =~= line.drop_last().flatten() + line.last());
        assert(glyphs_at(place_word(line.last(), start)) =~= glyphs_in(line.last()));
        assert(glyphs_at(place_line(line, spacing)) =~= glyphs_at(
            place_line(line.drop_last(), spacing),
        ) + glyphs_at(place_word(line.last(), start)));
        assert(glyphs_in(line.flatten()) =~= glyphs_in(line.drop_last().flatten()) + glyphs_in(
            line.last(),
        ));
    }
}

/// Spreading lines keeps the glyphs of all of them and their order.
pub proof fn lemma_spreading_keeps_glyphs(lines: Seq<Seq<Seq<BoxedGlyph>>>, text_width: int)
    ensures
        spread(lines, text_width).len() == lines.len(),
        forall|k: int|
            0 <= k < lines.len() ==> glyphs_at(#[trigger] spread(lines, text_width)[k])
                == glyphs_in(lines[k].flatten()),
        glyphs_at(spread(lines, text_width).flatten()) == glyphs_in(lines.flatten().flatten()),
    decreases lines.len(),
{
    broadcast use Seq::lemma_flatten_push;

    assert forall|k: int| 0 <= k < lines.len() implies glyphs_at(
        #[trigger] spread(lines, text_width)[k],
    ) == glyphs_in(lines[k].flatten()) by {
        lemma_placing_keeps_glyphs(lines[k], justified_spacing(lines[k], text_width));
    }
    if lines.len() == 0 {
        assert(glyphs_at(spread(lines, text_width).flatten()) =~= glyphs_in(
            lines.flatten().flatten(),
        ));
    } else {
        let rest = lines.drop_last();
        let last = lines.last();
        lemma_spreading_keeps_glyphs(rest, text_width);
        assert(lines =~= rest.push(last));
        assert(spread(lines, text_width) =~= spread(rest, text_width).push(
            place_line(last, justified_spacing(last, text_width)),
        ));
        lemma_placing_keeps_glyphs(last, justified_spacing(last, text_width));
        lemma_glyphs_of_joined_lines(
            spread(rest, text_width),
            place_line(last, justified_spacing(last, text_width)),
            rest,
            last,
        );
    }
}

/// Where placed lines hold the glyphs of some lines of words, and one more
/// placed line those of one more line of words, all taken together do so too.
proof fn lemma_glyphs_of_joined_lines(
    placed: Seq<Seq<(Glyph, int)>>,
    last_placed: Seq<(Glyph, int)>,
    lines: Seq<Seq<Seq<BoxedGlyph>>>,
    last: Seq<Seq<BoxedGlyph>>,
)
    requires
        glyphs_at(placed.flatten()) == glyphs_in(lines.flatten().flatten()),
        glyphs_at(last_placed) == glyphs_in(last.flatten()),
    ensures
        glyphs_at(placed.push(last_placed).flatten()) == glyphs_in(
            lines.push(last).flatten().flatten(),
        ),
{
    broadcast use Seq::lemma_flatten_push;

    vstd::seq_lib::lemma_flatten_concat(lines.flatten(), last);
    assert(lines.push(last).flatten().flatten() =~= lines.flatten().flatten() + last.flatten());
    assert(glyphs_in(lines.flatten().flatten() + last.flatten()) =~= glyphs_in(
        lines.flatten().flatten(),
    ) + glyphs_in(last.flatten()));
    assert(glyphs_at(placed.flatten() + last_placed) =~= glyphs_at(placed.flatten()) + glyphs_at(
        last_placed,
    ));
}

/// The glyphs of the closed words and of the open word are the glyphs of the
/// boxes, in order.
pub proof fn lemma_words_hold_boxes(items: Seq<Item>)
    ensures
        glyphs_in(closed_words(items).flatten() + open_word(items)) == box_glyphs(items),
    decreases items.len(),
{
    broadcast use Seq::lemma_flatten_push;

    if items.len() == 0 {
        assert(glyphs_in(closed_words(items).flatten() + open_word(items)) =~= box_glyphs(items));
    } else {
        let rest = items.drop_last();
        lemma_words_hold_boxes(rest);
        match items.last().content {
            Content::BoundingBox(glyph) => {
                let boxed = BoxedGlyph { glyph, width: items.last().width };
                assert(closed_words(items).flatten() + open_word(items) =~= (closed_words(
                    rest,
                ).flatten() + open_word(rest)).push(boxed));
                assert(glyphs_in(
                    (closed_words(rest).flatten() + open_word(rest)).push(boxed),
                ) =~= glyphs_in(closed_words(rest).flatten() + open_word(rest)).push(glyph));
            },
            Content::Glue { .. } => {
                assert(closed_words(items).flatten() + open_word(items) =~= closed_words(
                    rest,
                ).flatten() + open_word(rest));
            },
            Content::Penalty { .. } => {},
        }
    }
}

/// No line splits a word. The lines of words into which a paragraph is
/// broken are, taken together, the words of the items after the first, each
/// whole and in its place; and every line that comes out holds the glyphs of
/// the words of its line, and no others.
pub proof fn lemma_lines_hold_whole_words(items: Seq<Item>, text_width: int)
    ensures
        broken_lines(items, text_width).flatten() == all_words(walked(items)),
        naive_lines(items, text_width).len() == broken_lines(items, text_width).len(),
        forall|k: int|
            0 <= k < naive_lines(items, text_width).len() ==> glyphs_at(
                #[trigger] naive_lines(items, text_width)[k],
            ) == glyphs_in(broken_lines(items, text_width)[k].flatten()),
{
    broadcast use Seq::lemma_flatten_push;

    let end = walk(walked(items), text_width);
    lemma_walk_keeps_words(walked(items), text_width);
    lemma_spreading_keeps_glyphs(end.lines, text_width);
    lemma_placing_keeps_glyphs(last_line(end), WORD_SPACING as int);
    assert(end.lines.flatten() + last_line(end) =~= all_words(walked(items)));
}

/// The glyphs that come out are those of the words of the items after the
/// first, each once and in reading order.
pub proof fn lemma_words_come_out(items: Seq<Item>, text_width: int)
    ensures
        glyphs_at(naive_lines(items, text_width).flatten()) == glyphs_in(
            all_words(walked(items)).flatten(),
        ),
{
    broadcast use Seq::lemma_flatten_push;

    let end = walk(walked(items), text_width);
    lemma_lines_hold_whole_words(items, text_width);
    lemma_spreading_keeps_glyphs(end.lines, text_width);
    lemma_placing_keeps_glyphs(last_line(end), WORD_SPACING as int);
    lemma_glyphs_of_joined_lines(
        spread(end.lines, text_width),
        place_line(last_line(end), WORD_SPACING as int),
        end.lines,
        last_line(end),
    );
}

/// The paragraph opens with a marker, not with a box.
pub open spec fn opens_with_marker(items: Seq<Item>) -> bool {
    items.len() > 0 ==> !(items[0].content is BoundingBox)
}

/// Every box of a paragraph that opens with a marker comes out in exactly
/// one line: the glyphs of the lines, read line after line, are the glyphs
/// of the paragraph's boxes in reading order, none lost and none twice.
pub proof fn lemma_every_box_comes_out_once(items: Seq<Item>, text_width: int)
    requires
        opens_with_marker(items),
    ensures
        glyphs_at(naive_lines(items, text_width).flatten()) == box_glyphs(items),
{
    broadcast use Seq::lemma_flatten_push;

    lemma_words_come_out(items, text_width);
    lemma_words_hold_boxes(walked(items));
    assert(all_words(walked(items)).flatten() =~= closed_words(walked(items)).flatten()
        + open_word(walked(items)));
    lemma_marker_holds_no_box(items);
}

/// Where a paragraph does not open with a box, the items after the first
/// hold all its boxes.
proof fn lemma_marker_holds_no_box(items: Seq<Item>)
    requires
        items.len() > 0 ==> !(items[0].content is BoundingBox),
    ensures
        box_glyphs(walked(items)) == box_glyphs(items),
    decreases items.len(),
{
    if items.len() > 1 {
        let rest = items.drop_last();
        lemma_marker_holds_no_box(rest);
        assert(walked(items).drop_last() =~= walked(rest));
        assert(walked(items).last() == items.last());
    } else if items.len() == 1 {
        assert(box_glyphs(items.drop_last()) =~= Seq::<Glyph>::empty());
        assert(walked(items) =~= Seq::<Item>::empty());
    }
}

} // verus!
