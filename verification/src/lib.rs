//! Side-by-side tracing of generated tokens back to the source text that
//! produced them.
//!
//! A token tree whose tokens carry provenance ranges is pretty-printed into
//! tagged chunks, the referenced source files are swept into chunks tagged
//! with the ranges active at each character, and both chunk sequences are
//! rendered into cross-highlightable markup.

pub mod range;
pub mod token;
pub mod format;
pub mod source;
pub mod html;

pub use crate::html::generate_html;


