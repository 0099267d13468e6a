//! A paragraph: the items of a text in reading order.

use crate::typography::items::Item;
use vstd::prelude::*;

verus! {

/// The items of a paragraph in reading order. The first is a marker that
/// opens the paragraph.
pub struct Paragraph {
    /// The items.
    pub items: Vec<Item>,
}

impl View for Paragraph {
    type V = Seq<Item>;

    open spec fn view(&self) -> Seq<Item> {
        self.items@
    }
}

} // verus!
