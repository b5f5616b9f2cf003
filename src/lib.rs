//! Detection of duplicated blocks of lines inside one text document.
//!
//! Lines are compared by a normalized key (outer whitespace trimmed, spaces
//! removed). The finder searches windows of non-empty lines from the largest
//! to the smallest and claims lines greedily, so that groups never overlap.

pub mod annotate;
pub mod finder;
pub mod text;
