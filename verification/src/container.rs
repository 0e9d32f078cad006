//! The index of a tar container: one record per entry, read off the headers.

use crate::paths::{extension, extension_of};
use crate::stat::{entries, sizes_sum, Archive, Entry, FileStat, Statistic};
use vstd::prelude::*;

verus! {

/// What the header of one container entry gave: its path, where it is valid
/// UTF-8, and its declared size, where the size field can be read. An entry
/// whose header could not be read at all has neither.
pub struct RawEntry {
    pub path: Option<String>,
    pub size: Option<u64>,
}

/// The mathematical value of a `RawEntry`.
pub struct Header {
    pub path: Option<Seq<char>>,
    pub size: Option<u64>,
}

impl View for RawEntry {
    type V = Header;

    open spec fn view(&self) -> Header {
        Header {
            path: match self.path {
                Some(p) => Some(p@),
                None => None,
            },
            size: self.size,
        }
    }
}

/// The values of a sequence of raw entries, in the same order.
pub open spec fn headers(raw: Seq<RawEntry>) -> Seq<Header> {
    Seq::new(raw.len(), |i: int| raw[i]@)
}

/// What walking a tar container gives: the headers of its entries in the
/// order in which they lie in the container, or `None` where the walk cannot
/// start.
pub uninterp spec fn tar_listing(data: Seq<u8>) -> Option<Seq<Header>>;

/// Whether the 512 bytes at `at` are the header of a GNU sparse entry that
/// announces further sparse headers behind it: the type is `S`, the magic
/// and the version are those of the GNU format, and the flag for more
/// headers is set.
pub open spec fn announces_more(data: Seq<u8>, at: int) -> bool {
    &&& data[at + 156] == 83
    &&& data[at + 482] == 1
    &&& data[at + 257] == 117
    &&& data[at + 258] == 115
    &&& data[at + 259] == 116
    &&& data[at + 260] == 97
    &&& data[at + 261] == 114
    &&& data[at + 262] == 32
    &&& data[at + 263] == 32
    &&& data[at + 264] == 0
}

/// Whether block `k` of the container, counted in blocks of 512 bytes,
/// announces no further sparse headers.
pub open spec fn is_plain_block(data: Seq<u8>, k: int) -> bool {
    !announces_more(data, k * 512)
}

/// Whether the container can be walked: none of its whole blocks announces
/// further sparse headers. On such a header the walk adds to a position
/// that the header itself can set near the largest `u64`, without a check.
pub open spec fn walkable(data: Seq<u8>) -> bool {
    forall|k: int| 0 <= k && (k + 1) * 512 <= data.len() ==> #[trigger] is_plain_block(data, k)
}

/// What the library reads off a container: the headers that the walk gives
/// where the container can be walked, and `None` where it cannot.
pub open spec fn listing_of(data: Seq<u8>) -> Option<Seq<Header>> {
    if walkable(data) {
        tar_listing(data)
    } else {
        None
    }
}

/// Tests whether the container can be walked.
pub fn is_walkable(data: &[u8]) -> (r: bool)
    ensures
        r == walkable(data@),
{
    let mut at: usize = 0;
    let ghost mut k: int = 0;
    while data.len() - at >= 512
        invariant
            at <= data.len(),
            at == k * 512,
            0 <= k,
            forall|j: int| 0 <= j < k ==> #[trigger] is_plain_block(data@, j),
        decreases data.len() - at,
    {
        if data[at + 156] == 83 && data[at + 482] == 1 && data[at + 257] == 117 && data[at + 258]
            == 115 && data[at + 259] == 116 && data[at + 260] == 97 && data[at + 261] == 114
            && data[at + 262] == 32 && data[at + 263] == 32 && data[at + 264] == 0 {
            assert(!is_plain_block(data@, k));
            return false;
        }
        at += 512;
        proof {
            k = k + 1;
        }
    }
    true
}

/// Walks the container with `tar::Archive::entries` and keeps, of each item
/// that the iterator yields, the path (`Entry::path`) and the size
/// (`Header::size`). The contract only names the outcome: the walk works on
/// nothing but the bytes it is given. Containers that cannot be walked are
/// left out: on them the outside code may add past the largest `u64`.
#[verifier::external_body]
fn walk(data: &[u8]) -> (r: Option<Vec<RawEntry>>)
    requires
        walkable(data@),
    ensures
        match r {
            Some(raw) => tar_listing(data@) == Some(headers(raw@)),
            None => tar_listing(data@) is None,
        },
{
    let mut archive = tar::Archive::new(data);
    let mut raw = Vec::new();
    for item in archive.entries().ok()? {
        raw.push(match item {
            Ok(e) => RawEntry {
                path: e.path().ok().and_then(|p| p.to_str().map(String::from)),
                size: e.header().size().ok(),
            },
            Err(_) => RawEntry { path: None, size: None },
        });
    }
    Some(raw)
}

/// The entries that a sequence of headers stands for: each header with a path
/// and a size gives one entry, in the same order; the others are left out.
pub open spec fn indexed(raw: Seq<Header>) -> Seq<Entry>
    decreases raw.len(),
{
    if raw.len() == 0 {
        Seq::empty()
    } else {
        let rest = indexed(raw.drop_last());
        match (raw.last().path, raw.last().size) {
            (Some(path), Some(size)) => rest.push(Entry { extension: extension_of(path), size }),
            _ => rest,
        }
    }
}

/// Turns the raw entries of a container into its entries, skipping those
/// without a path or a size.
pub fn index_entries(raw: &Vec<RawEntry>) -> (files: Vec<FileStat>)
    ensures
        entries(files@) == indexed(headers(raw@)),
{
    let ghost all = headers(raw@);
    let mut files: Vec<FileStat> = Vec::new();
    let mut i: usize = 0;
    while i < raw.len()
        invariant
            i <= raw.len(),
            all == headers(raw@),
            entries(files@) == indexed(all.take(i as int)),
        decreases raw.len() - i,
    {
        proof {
            assert(all.take(i + 1).drop_last() == all.take(i as int));
            assert(all.take(i + 1).last() == raw[i as int]@);
        }
        let ghost before = files@;
        match (&raw[i].path, raw[i].size) {
            (Some(path), Some(size)) => {
                let stat = FileStat { extension: extension(path.as_str()), size };
                files.push(stat);
                assert(entries(files@) == entries(before).push(stat@));
            },
            _ => {},
        }
        i += 1;
    }
    proof {
        assert(all.take(i as int) == all);
    }
    files
}

/// Indexes a tar container held in memory; `None` where the container
/// cannot be walked, or where the walk over it cannot start.
pub fn read_tar(data: &[u8]) -> (r: Option<Vec<FileStat>>)
    ensures
        match listing_of(data@) {
            Some(listing) => r is Some && entries(r.unwrap()@) == indexed(listing),
            None => r is None,
        },
{
    if !is_walkable(data) {
        return None;
    }
    match walk(data) {
        Some(raw) => Some(index_entries(&raw)),
        None => None,
    }
}

/// The value of the statistic of a container file with the given name and
/// bytes: `None` where the container cannot be walked, where the walk cannot
/// start, or where the sizes of its entries add up to more than `u64` holds.
pub open spec fn statistic_of(file_name: Seq<char>, data: Seq<u8>) -> Option<Archive> {
    match listing_of(data) {
        Some(listing) if sizes_sum(indexed(listing)) <= u64::MAX => Some(
            Archive {
                title: file_name,
                entries: indexed(listing),
                size: sizes_sum(indexed(listing)) as u64,
            },
        ),
        _ => None,
    }
}

/// The statistic of a container file: its entries under the file's name,
/// with their total size.
pub fn read_file_statistic(file_name: &str, data: &[u8]) -> (r: Option<Statistic>)
    ensures
        match r {
            Some(stat) => statistic_of(file_name@, data@) == Some(stat@) && stat.wf(),
            None => statistic_of(file_name@, data@) is None,
        },
{
    match read_tar(data) {
        Some(files) => Statistic::new(file_name.to_owned(), files),
        None => None,
    }
}

} // verus!
