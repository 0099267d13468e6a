//! The paragraph model and the algorithms that lay a paragraph out.

pub mod breaking;
pub mod items;
pub mod justification;
pub mod paragraphs;
pub mod placement;
