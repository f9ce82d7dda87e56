//! Ordering and naming of the page images taken out of a comic archive or a
//! document: which entries become pages, in which order they are read, and the
//! zero-padded file names they are given.

pub mod archive;
pub mod decode;
pub mod document;
pub mod error;
pub mod naming;
pub mod natural;
pub mod order;
pub mod paths;
pub mod sort;
pub mod text;
