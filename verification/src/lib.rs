//! Frequency histograms for Shannon-entropy computation.
//!
//! Two pipelines feed one entropy reduction: a byte pipeline that bins the
//! bytes of a file into a fixed 256-bucket histogram, and a text pipeline
//! that bins a string's user-perceived characters (grapheme clusters) into
//! an open-ended histogram. This crate holds the verified part: the
//! histograms, their accumulation, and the counting laws that the entropy
//! reduction depends on. The reduction itself works in floating point and
//! lives with the caller, which also performs all I/O.

pub mod byte_hist;
pub mod counting;
pub mod segment;
pub mod text_hist;
