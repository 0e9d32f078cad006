//! Statistics over a directory of bzip2-compressed tar archives: which files
//! the archives hold, grouped by extension and by technology.
//!
//! The library works on plain values. Its caller lists the directory, reads
//! and writes the files, and shows the results; the library decides which
//! files are archives (`discover`), in which order and how each is unpacked
//! (`collect`, `codec`), what a container holds (`container`, `paths`,
//! `stat`), and what the reports say (`group`, `query`, `report`, `order`,
//! `category`). Each function states what it returns in its contract, over
//! the mathematical values of its arguments, and is proved to meet it. The
//! decoding of bzip2 streams, the walk over tar headers, the sorting and
//! counting by `itertools` and the reading of a `phf` map are called, not
//! proved: their contracts are marked as such where they stand.

pub mod category;
pub mod codec;
pub mod collect;
pub mod container;
pub mod discover;
pub mod group;
pub mod order;
pub mod paths;
pub mod progress;
pub mod query;
pub mod report;
pub mod stat;

pub use crate::group::group_by;
pub use crate::progress::{Progress, Size};
pub use crate::stat::{FileStat, Statistic};
