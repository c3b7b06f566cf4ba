//! Attribute-value normalization and character escaping for XML text,
//! with the two property checks that exercise them.

mod text;
pub mod escape;
pub mod attributes;
pub mod etna;
pub mod harness;
