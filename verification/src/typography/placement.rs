//! Placing the words of one line from its left margin.
//!
//! A word is a run of boxed glyphs that stay together. A line is a sequence
//! of words. Placing a line gives every glyph its distance from the left
//! margin: the widths of all that stands before it, and one spacing for each
//! word before its own.

use crate::typography::items::Glyph;
use crate::units::Sp;
use vstd::prelude::*;

verus! {

/// The spacing between two words where none is computed: 7.5 points.
pub const WORD_SPACING: i64 = 491_520;

/// A glyph together with the width of its box.
#[derive(Copy, Clone, Debug, PartialEq, Eq, Structural)]
pub struct BoxedGlyph {
    /// The glyph to render.
    pub glyph: Glyph,
    /// The width of its box.
    pub width: Sp,
}

/// The words of a line, each as the sequence of its boxed glyphs.
pub open spec fn words_of(line: Seq<Vec<BoxedGlyph>>) -> Seq<Seq<BoxedGlyph>> {
    line.map_values(|word: Vec<BoxedGlyph>| word@)
}

/// The glyphs of a placed line, each with its offset as an integer.
pub open spec fn offsets_of(placed: Seq<(Glyph, Sp)>) -> Seq<(Glyph, int)> {
    placed.map_values(|at: (Glyph, Sp)| (at.0, at.1.0 as int))
}

/// The sum of the widths of a word's boxes.
pub open spec fn word_width(word: Seq<BoxedGlyph>) -> int
    decreases word.len(),
{
    if word.len() == 0 {
        0
    } else {
        word_width(word.drop_last()) + word.last().width.0
    }
}

/// The sum of the widths of a line's words, spacing not counted.
pub open spec fn line_width(line: Seq<Seq<BoxedGlyph>>) -> int
    decreases line.len(),
{
    if line.len() == 0 {
        0
    } else {
        line_width(line.drop_last()) + word_width(line.last())
    }
}

/// No box of the line has a negative width.
pub open spec fn nonnegative(line: Seq<Seq<BoxedGlyph>>) -> bool {
    forall|k: int, j: int|
        0 <= k < line.len() && 0 <= j < line[k].len() ==> (#[trigger] line[k][j]).width.0 >= 0
}

/// The quotient of `a` by a positive `d`, rounded toward zero.
pub open spec fn toward_zero(a: int, d: int) -> int {
    if a >= 0 {
        a / d
    } else {
        -((-a) / d)
    }
}

/// The spacing that spreads a line over `text_width`: the width its words
/// leave free, shared among the gaps between them and rounded toward zero.
/// A line of one word or none has no gap to share it among, and gets
/// `WORD_SPACING`.
pub open spec fn justified_spacing(line: Seq<Seq<BoxedGlyph>>, text_width: int) -> int {
    if line.len() > 1 {
        toward_zero(text_width - line_width(line), line.len() - 1)
    } else {
        WORD_SPACING as int
    }
}

/// The glyphs of a word that starts at `start`: each at `start` plus the
/// widths of the glyphs before it.
pub open spec fn place_word(word: Seq<BoxedGlyph>, start: int) -> Seq<(Glyph, int)> {
    Seq::new(word.len(), |j: int| (word[j].glyph, start + word_width(word.take(j))))
}

/// The glyphs of a line whose words are `spacing` apart: the last word starts
/// after the widths of the words before it and one spacing for each of them.
pub open spec fn place_line(line: Seq<Seq<BoxedGlyph>>, spacing: int) -> Seq<(Glyph, int)>
    decreases line.len(),
{
    if line.len() == 0 {
        Seq::empty()
    } else {
        place_line(line.drop_last(), spacing) + place_word(
            line.last(),
            line_width(line.drop_last()) + (line.len() - 1) * spacing,
        )
    }
}

/// Every offset of the line placed with `spacing` fits the machine's
/// integers. Boxes are not negative, so this is a bound on the far end where
/// the spacing is positive and on the near end where it is negative.
pub open spec fn placeable(line: Seq<Seq<BoxedGlyph>>, spacing: int) -> bool {
    &&& nonnegative(line)
    &&& line_width(line) <= i64::MAX
    &&& line.len() > 0 ==> {
        &&& line_width(line) + (line.len() - 1) * spacing <= i64::MAX
        &&& (line.len() - 1) * spacing >= i64::MIN
    }
}

/// The width of a word whose boxes are not negative grows with its glyphs.
pub proof fn lemma_word_width_grows(word: Seq<BoxedGlyph>, j: int)
    requires
        forall|i: int| 0 <= i < word.len() ==> (#[trigger] word[i]).width.0 >= 0,
        0 <= j <= word.len(),
    ensures
        0 <= word_width(word.take(j)) <= word_width(word),
    decreases word.len() - j,
{
    if j == word.len() {
        assert(word.take(j) =~= word);
        lemma_word_width_nonnegative(word);
    } else {
        lemma_word_width_grows(word, j + 1);
        lemma_word_width_nonnegative(word.take(j));
        assert(word.take(j + 1).drop_last() =~= word.take(j));
        assert(word.take(j + 1).last() == word[j]);
    }
}

/// A word whose boxes are not negative is not narrower than nothing.
pub proof fn lemma_word_width_nonnegative(word: Seq<BoxedGlyph>)
    requires
        forall|i: int| 0 <= i < word.len() ==> (#[trigger] word[i]).width.0 >= 0,
    ensures
        0 <= word_width(word),
    decreases word.len(),
{
    if word.len() > 0 {
        lemma_word_width_nonnegative(word.drop_last());
    }
}

/// A line whose boxes are not negative is not narrower than nothing.
pub proof fn lemma_line_width_nonnegative(line: Seq<Seq<BoxedGlyph>>)
    requires
        nonnegative(line),
    ensures
        0 <= line_width(line),
    decreases line.len(),
{
    if line.len() > 0 {
        assert(nonnegative(line.drop_last())) by {
            assert forall|k: int, j: int|
                0 <= k < line.drop_last().len() && 0 <= j < line.drop_last()[k].len() implies (
            #[trigger] line.drop_last()[k][j]).width.0 >= 0 by {
                assert(line[k][j].width.0 >= 0);
            }
        }
        lemma_line_width_nonnegative(line.drop_last());
        lemma_word_width_nonnegative(line.last());
    }
}

/// The first `k` words of a line whose boxes are not negative have no
/// negative box either, and are not wider than the line.
pub proof fn lemma_line_width_grows(line: Seq<Seq<BoxedGlyph>>, k: int)
    requires
        nonnegative(line),
        0 <= k <= line.len(),
    ensures
        nonnegative(line.take(k)),
        0 <= line_width(line.take(k)) <= line_width(line),
    decreases line.len() - k,
{
    assert(nonnegative(line.take(k))) by {
        assert forall|i: int, j: int|
            0 <= i < line.take(k).len() && 0 <= j < line.take(k)[i].len() implies (
        #[trigger] line.take(k)[i][j]).width.0 >= 0 by {
            assert(line[i][j].width.0 >= 0);
        }
    }
    lemma_line_width_nonnegative(line.take(k));
    if k == line.len() {
        assert(line.take(k) =~= line);
    } else {
        lemma_line_width_grows(line, k + 1);
        assert(line.take(k + 1).drop_last() =~= line.take(k));
        lemma_word_width_nonnegative(line[k]);
    }
}

/// Between the first and the last word the spacings add up monotonically.
proof fn lemma_spacings_between(k: int, n: int, spacing: int)
    by (nonlinear_arith)
    requires
        0 <= k <= n,
    ensures
        spacing >= 0 ==> 0 <= k * spacing <= n * spacing,
        spacing < 0 ==> n * spacing <= k * spacing <= 0,
        (k + 1) * spacing == k * spacing + spacing,
{
}

/// In a line that is placeable with `spacing`, glyph `j` of word `k` has an
/// offset that fits, and so has the end of the last glyph.
pub proof fn lemma_offset_fits(line: Seq<Seq<BoxedGlyph>>, spacing: int, k: int, j: int)
    requires
        placeable(line, spacing),
        0 <= k < line.len(),
        0 <= j <= line[k].len(),
    ensures
        i64::MIN <= line_width(line.take(k)) + k * spacing,
        i64::MIN <= line_width(line.take(k)) + k * spacing + word_width(line[k].take(j))
            <= i64::MAX,
        0 <= word_width(line[k].take(j)),
        0 <= line_width(line.take(k)),
{
    lemma_line_width_grows(line, k);
    lemma_line_width_grows(line, k + 1);
    assert(line.take(k + 1).drop_last() =~= line.take(k));
    assert(line.take(k + 1).last() == line[k]);
    assert forall|i: int| 0 <= i < line[k].len() implies (#[trigger] line[k][i]).width.0 >= 0 by {}
    lemma_word_width_grows(line[k], j);
    lemma_spacings_between(k, line.len() - 1, spacing);
}

/// The width that the words of a line take up, spacing not counted.
pub fn occupied_width(line: &Vec<Vec<BoxedGlyph>>) -> (width: Sp)
    requires
        nonnegative(words_of(line@)),
        line_width(words_of(line@)) <= i64::MAX,
    ensures
        width.0 == line_width(words_of(line@)),
{
    let ghost words = words_of(line@);
    let mut width = Sp(0);
    let mut k: usize = 0;
    while k < line.len()
        invariant
            k <= line.len(),
            words == words_of(line@),
            placeable(words, 0),
            width.0 == line_width(words.take(k as int)),
        decreases line.len() - k,
    {
        let word = &line[k];
        let ghost before = width.0 as int;
        let mut j: usize = 0;
        while j < word.len()
            invariant
                j <= word.len(),
                k < line.len(),
                words.len() == line.len(),
                word@ == words[k as int],
                placeable(words, 0),
                before == line_width(words.take(k as int)),
                width.0 == before + word_width(word@.take(j as int)),
            decreases word.len() - j,
        {
            proof {
                lemma_offset_fits(words, 0, k as int, j + 1);
                assert(word@.take(j + 1).drop_last() =~= word@.take(j as int));
            }
            width = width + word[j].width;
            j += 1;
        }
        proof {
            assert(word@.take(word.len() as int) =~= word@);
            assert(words.take(k + 1).drop_last() =~= words.take(k as int));
        }
        k += 1;
    }
    proof {
        assert(words.take(line.len() as int) =~= words);
    }
    width
}

/// What `word_space` needs of a line of more than one word: no negative
/// box, and a free width that fits the machine's integers.
pub open spec fn spreadable(line: Seq<Seq<BoxedGlyph>>, text_width: int) -> bool {
    line.len() > 1 ==> {
        &&& nonnegative(line)
        &&& line_width(line) <= i64::MAX
        &&& text_width - line_width(line) >= i64::MIN
        &&& line.len() - 1 <= i64::MAX
    }
}

/// The spacing that spreads the words of a line over `text_width`. A line of
/// one word or none is not divided for: it gets `WORD_SPACING`.
pub fn word_space(line: &Vec<Vec<BoxedGlyph>>, text_width: Sp) -> (spacing: Sp)
    requires
        spreadable(words_of(line@), text_width.0 as int),
    ensures
        spacing.0 == justified_spacing(words_of(line@), text_width.0 as int),
        line.len() <= 1 ==> spacing.0 == WORD_SPACING,
{
    if line.len() > 1 {
        proof {
            lemma_line_width_nonnegative(words_of(line@));
        }
        let available_space = text_width - occupied_width(line);
        let gaps: i64 = (line.len() - 1) as i64;
        Sp(available_space.0 / gaps)
    } else {
        Sp(WORD_SPACING)
    }
}

/// Places the words of a line `spacing` apart, the first at the left margin.
pub fn place_words(line: &Vec<Vec<BoxedGlyph>>, spacing: Sp) -> (placed: Vec<(Glyph, Sp)>)
    requires
        placeable(words_of(line@), spacing.0 as int),
    ensures
        offsets_of(placed@) == place_line(words_of(line@), spacing.0 as int),
{
    let ghost words = words_of(line@);
    let mut placed: Vec<(Glyph, Sp)> = Vec::new();
    let mut current_x = Sp(0);
    let mut k: usize = 0;
    proof {
        assert(offsets_of(placed@) =~= place_line(words.take(0), spacing.0 as int));
    }
    while k < line.len()
        invariant
            k <= line.len(),
            words == words_of(line@),
            placeable(words, spacing.0 as int),
            k < line.len() ==> current_x.0 == line_width(words.take(k as int)) + k * spacing.0,
            offsets_of(placed@) == place_line(words.take(k as int), spacing.0 as int),
        decreases line.len() - k,
    {
        let word = &line[k];
        let ghost start = current_x.0 as int;
        let ghost before = offsets_of(placed@);
        let mut j: usize = 0;
        while j < word.len()
            invariant
                j <= word.len(),
                k < line.len(),
                words.len() == line.len(),
                word@ == words[k as int],
                placeable(words, spacing.0 as int),
                start == line_width(words.take(k as int)) + k * spacing.0,
                current_x.0 == start + word_width(word@.take(j as int)),
                offsets_of(placed@) == before + place_word(word@, start).take(j as int),
            decreases word.len() - j,
        {
            proof {
                lemma_offset_fits(words, spacing.0 as int, k as int, j + 1);
                assert(word@.take(j + 1).drop_last() =~= word@.take(j as int));
                assert(offsets_of(placed@.push((word@[j as int].glyph, current_x)))
                    =~= offsets_of(placed@).push((word@[j as int].glyph, current_x.0 as int)));
                assert(place_word(word@, start).take(j + 1) =~= place_word(word@, start).take(
                    j as int,
                ).push((word@[j as int].glyph, current_x.0 as int)));
            }
            placed.push((word[j].glyph, current_x));
            current_x = current_x + word[j].width;
            j += 1;
        }
        proof {
            assert(place_word(word@, start).take(word.len() as int) =~= place_word(word@, start));
            assert(word@.take(word.len() as int) =~= word@);
            assert(words.take(k + 1).drop_last() =~= words.take(k as int));
            assert(words.take(k + 1).last() == word@);
        }
        k += 1;
        if k < line.len() {
            proof {
                lemma_offset_fits(words, spacing.0 as int, k as int, 0);
                lemma_spacings_between(k - 1, line.len() - 1, spacing.0 as int);
                assert(words.take(k as int).drop_last() =~= words.take(k - 1));
            }
            current_x = current_x + spacing;
        }
    }
    proof {
        assert(words.take(line.len() as int) =~= words);
    }
    placed
}

/// Shares rounded toward zero never add up to more than what was shared.
proof fn lemma_shares_within(a: int, d: int)
    by (nonlinear_arith)
    requires
        d > 0,
    ensures
        a >= 0 ==> 0 <= d * toward_zero(a, d) <= a,
        a < 0 ==> a <= d * toward_zero(a, d) <= 0,
{
}

/// A line that `word_space` accepts can be placed with the spacing it
/// computes: the last word ends no further than `text_width`, or than the
/// words' own width where they are wider.
pub proof fn lemma_justified_spacing_fits(line: Seq<Seq<BoxedGlyph>>, text_width: int)
    requires
        nonnegative(line),
        line_width(line) <= i64::MAX,
        text_width <= i64::MAX,
        spreadable(line, text_width),
    ensures
        placeable(line, justified_spacing(line, text_width)),
{
    if line.len() > 1 {
        lemma_shares_within(text_width - line_width(line), line.len() - 1);
        lemma_line_width_nonnegative(line);
    }
}

/// A line of several words that are not wider than the text is spread to
/// the text width: its last word ends no further than `text_width`, and less
/// than one scaled point for each gap short of it.
pub proof fn lemma_spread_line_fills_text_width(line: Seq<Seq<BoxedGlyph>>, text_width: int)
    requires
        line.len() > 1,
        line_width(line) <= text_width,
    ensures
        text_width - (line.len() - 1) < line_width(line) + (line.len() - 1) * justified_spacing(
            line,
            text_width,
        ) <= text_width,
{
    lemma_shares_leave_little(text_width - line_width(line), line.len() - 1);
}

/// Shares rounded toward zero leave less than one for each share.
proof fn lemma_shares_leave_little(a: int, d: int)
    by (nonlinear_arith)
    requires
        d > 0,
        a >= 0,
    ensures
        a - d < d * toward_zero(a, d) <= a,
{
}

/// A line of one word is not divided for. Spread over any width it gets
/// `WORD_SPACING`, and its word stands at the left margin.
pub proof fn lemma_lone_word_stands_at_margin(word: Seq<BoxedGlyph>, text_width: int)
    ensures
        justified_spacing(seq![word], text_width) == WORD_SPACING,
        place_line(seq![word], justified_spacing(seq![word], text_width)) == place_word(word, 0),
{
    let line = seq![word];
    assert(line.drop_last() =~= Seq::<Seq<BoxedGlyph>>::empty());
    assert(line_width(Seq::<Seq<BoxedGlyph>>::empty()) == 0);
    assert(place_line(Seq::<Seq<BoxedGlyph>>::empty(), WORD_SPACING as int) =~= Seq::<
        (Glyph, int),
    >::empty());
    assert(place_line(line, WORD_SPACING as int) =~= place_word(word, 0));
}

/// Lays a line out over `text_width`: its words are placed `word_space`
/// apart, the first at the left margin.
pub fn spread_words(line: &Vec<Vec<BoxedGlyph>>, text_width: Sp) -> (placed: Vec<(Glyph, Sp)>)
    requires
        nonnegative(words_of(line@)),
        line_width(words_of(line@)) <= i64::MAX,
        spreadable(words_of(line@), text_width.0 as int),
    ensures
        offsets_of(placed@) == place_line(
            words_of(line@),
            justified_spacing(words_of(line@), text_width.0 as int),
        ),
{
    let spacing = word_space(line, text_width);
    proof {
        lemma_justified_spacing_fits(words_of(line@), text_width.0 as int);
    }
    place_words(line, spacing)
}

} // verus!
