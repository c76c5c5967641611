//! Engine for browsing very large line-oriented files: a newline-aligned
//! partition of the file into chunks, the bookkeeping of a background
//! pattern scanner, a bounded cache of parsed chunks and filtered
//! navigation over the file's lines.

pub mod bits;
pub mod cache;
pub mod lines;
pub mod lineset;
pub mod matcher;
pub mod partition;
pub mod pattern;
pub mod qhash;
pub mod recency;
pub mod search;
pub mod split;
pub mod style;
pub mod styled;
