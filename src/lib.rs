//! Splits extracted PDF page text into bounded, sentence-aware, overlapping
//! chunks, and carries results and diagnostics across a foreign boundary.
pub mod boundary;
pub mod chunking;
pub mod document;
pub mod status;
pub mod text;
