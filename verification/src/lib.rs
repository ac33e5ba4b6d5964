//! Elastic tabstops: a buffering writer that rewrites tab-delimited text into
//! column-aligned text, one run of contiguous tabbed lines at a time.

pub mod align;
pub mod block;
pub mod measure;
pub mod pad;
pub mod report;
pub mod rows;
pub mod split;
pub mod text;
pub mod widths;
pub mod writer;
