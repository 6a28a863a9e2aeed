//! The hierarchy of an OCR result, as plain data.
//!
//! A recognition engine such as Tesseract gives its result word by word, and says
//! of each word which blocks, paragraphs and lines begin with it. This crate puts
//! the words into a tree, `TesseractHierarchy`, without aggregating anything: every
//! block, paragraph, line and word is there, with its own box.
//!
//! `geometry` holds the boxes, `hierarchy` the tree, `text` what is done with
//! texts. `layout` says, as mathematics, which tree a page has; `commit` closes a
//! part of it, `builder` builds it, and `walk` asks the engine for the words.
//! `laws` says what the tree of a page is in terms of what the engine answered.

pub mod builder;
pub mod commit;
pub mod geometry;
pub mod hierarchy;
pub mod laws;
pub mod layout;
pub mod text;
pub mod walk;

pub use geometry::BoundingBox;
pub use hierarchy::{
    TesseractBlock, TesseractHierarchy, TesseractParagraph, TesseractTextLine, TesseractWord,
};
pub use walk::{HierarchyWalk, Level, Progress, Reply, Request};
