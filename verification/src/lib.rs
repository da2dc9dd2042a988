//! Derives a navigation outline for a document from the fonts its pages
//! draw text in: an interpreter tracks the current font across each page's
//! drawing operators, an aggregator counts on how many pages each font
//! appears, a generator turns per-page matches for up to three
//! user-chosen heading fonts into a nested outline tree, and a serializer
//! writes that tree into the host document's outline object graph.

pub mod content;
pub mod font_reader;
pub mod outline_generator;
pub mod outline_inserter;
pub mod pdf_font;
pub mod pdf_outline;
