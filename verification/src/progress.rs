//! The place where the caller shows progress, and the sizes of what the
//! library hands out. The library shows nothing itself: the collection says
//! which positions are to be shown, and the caller passes them on.

use crate::stat::{FileStat, Statistic};
use vstd::prelude::*;

verus! {

/// Something that has a size in bytes.
pub trait Size {
    /// The size in bytes.
    fn size(&self) -> u64;
}

/// A place where the progress of a long run is shown.
pub trait Progress {
    /// Shows that `current` bytes of the whole are done.
    fn progress(&mut self, current: u64);

    /// Ends the run with a last message.
    fn finish(&self, message: &'static str);

    /// Shows what is being worked on.
    fn message(&self, message: String);
}

impl Size for FileStat {
    fn size(&self) -> (bytes: u64)
        ensures
            bytes == self.size,
    {
        self.size
    }
}

impl Size for Statistic {
    fn size(&self) -> (bytes: u64)
        ensures
            bytes == self.size,
    {
        self.size
    }
}

} // verus!
