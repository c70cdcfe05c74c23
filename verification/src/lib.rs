//! A static-site rendering library.
//!
//! The pipeline it verifies: extracting front matter (a delimited
//! key/value block) from a page and converting the remaining body to
//! HTML, composing templates by inlining named partials, substituting
//! page metadata into placeholder tokens, and planning the copy of an
//! asset tree under an exclusion rule.

pub mod bytes;
pub mod compose;
pub mod copy_plan;
pub mod front_matter;
pub mod md;
pub mod meta;
pub mod render;
