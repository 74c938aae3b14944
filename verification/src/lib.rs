//! Dictionary-lookup display pipeline.
//!
//! Turns a parsed JSON response from a dictionary lookup service into an
//! ordered list of display lines: the extractor navigates the response tree
//! into grouped meanings, the presentation builder renders the groups as
//! plain-text lines, and the tag stripper removes `<...>` markup from every
//! displayed string.

pub mod extract;
pub mod meanings;
pub mod present;
pub mod strip;
pub mod tree;
