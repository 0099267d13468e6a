//! Paragraph justification over scaled-point lengths.
//!
//! A paragraph is a sequence of boxes, glue and penalties, each measured in
//! scaled points. The justifier breaks it into lines and places every glyph
//! on its line.

pub mod typography;
pub mod units;
