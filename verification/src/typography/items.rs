//! The items a paragraph is made of: boxes, glue and penalties.

use crate::units::Sp;
use vstd::prelude::*;

verus! {

/// The penalty that forces a break.
pub const INFINITELY_NEGATIVE_PENALTY: i32 = i32::MIN;

/// The penalty that forbids a break.
pub const INFINITELY_POSITIVE_PENALTY: i32 = i32::MAX;

/// A character to typeset: which one, in which font of the document's font
/// table, and at which size.
#[derive(Copy, Clone, Debug, PartialEq, Eq, Structural)]
pub struct Glyph {
    /// The character.
    pub glyph: char,
    /// The index of the font in the font table.
    pub font: usize,
    /// The font size.
    pub scale: Sp,
}

/// What an item is, beside its width.
#[derive(Copy, Clone, Debug, PartialEq, Eq, Structural)]
pub enum Content {
    /// Something to typeset. Line breaking sees only its width.
    BoundingBox(Glyph),
    /// Blank space that may grow or shrink within limits.
    Glue {
        /// How far the glue may stretch beyond its natural width.
        stretchability: Sp,
        /// How far the glue may shrink below its natural width.
        shrinkability: Sp,
    },
    /// A place where a line may end.
    Penalty {
        /// The cost of breaking here.
        value: i32,
        /// Whether two such breaks in a row are to be avoided.
        flagged: bool,
    },
}

/// A box, a glue or a penalty, with its natural width.
#[derive(Copy, Clone, Debug, PartialEq, Eq, Structural)]
pub struct Item {
    /// The natural width. For a penalty, the width added to the line if the
    /// break is taken.
    pub width: Sp,
    /// The kind of item and what belongs to it.
    pub content: Content,
}

impl Item {
    /// Whether the item keeps to the conventions of the model: a box and a
    /// glue are not narrower than nothing, and a glue neither stretches nor
    /// shrinks by a negative length.
    pub open spec fn well_formed(self) -> bool {
        match self.content {
            Content::BoundingBox(_) => self.width.0 >= 0,
            Content::Glue { stretchability, shrinkability } => {
                &&& self.width.0 >= 0
                &&& stretchability.0 >= 0
                &&& shrinkability.0 >= 0
            },
            Content::Penalty { .. } => true,
        }
    }

    /// Creates the box of a glyph. Its width is what `glyph_width` returns
    /// for the glyph's character, font and size.
    pub fn from_glyph<F: Fn(char, usize, Sp) -> Sp>(glyph: Glyph, glyph_width: F) -> (item: Item)
        requires
            glyph_width.requires((glyph.glyph, glyph.font, glyph.scale)),
        ensures
            item.content == Content::BoundingBox(glyph),
            glyph_width.ensures((glyph.glyph, glyph.font, glyph.scale), item.width),
            item.well_formed() <==> item.width.0 >= 0,
    {
        Item {
            width: glyph_width(glyph.glyph, glyph.font, glyph.scale),
            content: Content::BoundingBox(glyph),
        }
    }

    /// Creates a glue from its natural width and its two elasticities, as
    /// they are given.
    pub fn glue(ideal_spacing: Sp, stretchability: Sp, shrinkability: Sp) -> (item: Item)
        ensures
            item.width == ideal_spacing,
            item.content == (Content::Glue { stretchability, shrinkability }),
            item.well_formed() <==> ideal_spacing.0 >= 0 && stretchability.0 >= 0
                && shrinkability.0 >= 0,
    {
        Item { width: ideal_spacing, content: Content::Glue { stretchability, shrinkability } }
    }

    /// Creates a penalty from its width, its cost and its flag, as they are
    /// given.
    pub fn penalty(width: Sp, value: i32, flagged: bool) -> (item: Item)
        ensures
            item.width == width,
            item.content == (Content::Penalty { value, flagged }),
            item.well_formed(),
    {
        Item { width, content: Content::Penalty { value, flagged } }
    }
}

} // verus!
