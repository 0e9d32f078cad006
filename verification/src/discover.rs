//! Discovery: which items of a directory are the compressed files to work
//! on.

use crate::paths::{same_text, stem, stem_of, suffix, suffix_of};
use vstd::prelude::*;

verus! {

/// One item of a directory as it was read: its path, whether it is a regular
/// file, and its size where its metadata could be read.
pub struct DirItem {
    pub path: String,
    pub is_file: bool,
    pub size: Option<u64>,
}

/// A compressed file: its path and its size in bytes.
pub struct FileInfo {
    pub path: String,
    pub size: u64,
}

/// The mathematical value of a `DirItem`.
pub struct Item {
    pub path: Seq<char>,
    pub is_file: bool,
    pub size: Option<u64>,
}

/// The mathematical value of a `FileInfo`.
pub struct Source {
    pub path: Seq<char>,
    pub size: u64,
}

impl View for DirItem {
    type V = Item;

    open spec fn view(&self) -> Item {
        Item { path: self.path@, is_file: self.is_file, size: self.size }
    }
}

impl View for FileInfo {
    type V = Source;

    open spec fn view(&self) -> Source {
        Source { path: self.path@, size: self.size }
    }
}

/// The values of a sequence of directory items, in the same order.
pub open spec fn items(list: Seq<DirItem>) -> Seq<Item> {
    Seq::new(list.len(), |i: int| list[i]@)
}

/// The values of a sequence of compressed files, in the same order.
pub open spec fn sources(list: Seq<FileInfo>) -> Seq<Source> {
    Seq::new(list.len(), |i: int| list[i]@)
}

/// Whether a name ends in a dot and the given extension, letter for letter,
/// with something left of the name before that dot.
pub open spec fn has_extension(path: Seq<char>, extension: Seq<char>) -> bool {
    suffix_of(path) == Some(extension) && stem_of(path) is Some
}

/// The compressed files among the items of a directory, in the same order:
/// the regular files of known size whose name has the extension.
pub open spec fn chosen(list: Seq<Item>, extension: Seq<char>) -> Seq<Source>
    decreases list.len(),
{
    if list.len() == 0 {
        Seq::empty()
    } else {
        let head = chosen(list.drop_last(), extension);
        let item = list.last();
        match item.size {
            Some(size) if item.is_file && has_extension(item.path, extension) => head.push(
                Source { path: item.path, size },
            ),
            _ => head,
        }
    }
}

/// Tests whether a name has the extension.
pub fn name_has_extension(path: &str, extension: &str) -> (r: bool)
    ensures
        r == has_extension(path@, extension@),
{
    match suffix(path) {
        Some(tail) => same_text(tail.as_str(), extension) && stem(path).is_some(),
        None => false,
    }
}

/// Picks the compressed files out of the items of a directory. Items that
/// are no regular files, whose size is unknown or whose name has another
/// extension are passed over.
pub fn collect_files(list: &Vec<DirItem>, extension: &str) -> (files: Vec<FileInfo>)
    ensures
        sources(files@) == chosen(items(list@), extension@),
{
    let ghost all = items(list@);
    let mut files: Vec<FileInfo> = Vec::new();
    let mut i: usize = 0;
    while i < list.len()
        invariant
            i <= list.len(),
            all == items(list@),
            sources(files@) == chosen(all.take(i as int), extension@),
        decreases list.len() - i,
    {
        proof {
            assert(all.take(i + 1).drop_last() == all.take(i as int));
            assert(all.take(i + 1).last() == list[i as int]@);
        }
        let item = &list[i];
        match item.size {
            Some(size) => {
                if item.is_file && name_has_extension(item.path.as_str(), extension) {
                    let ghost before = files@;
                    let file = FileInfo { path: item.path.clone(), size };
                    files.push(file);
                    assert(sources(files@) == sources(before).push(file@));
                }
            },
            None => {},
        }
        i += 1;
    }
    proof {
        assert(all.take(i as int) == all);
    }
    files
}

} // verus!
