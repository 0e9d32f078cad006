//! What is recorded of an archive: one `FileStat` per entry, and the
//! `Statistic` that gathers the entries of one archive.

use vstd::prelude::*;

verus! {

/// One entry of an archive: the extension of its path and its declared size.
pub struct FileStat {
    pub extension: String,
    pub size: u64,
}

/// The entries of one archive, under the archive's title, with their total
/// size.
pub struct Statistic {
    pub title: String,
    pub files: Vec<FileStat>,
    pub size: u64,
}

/// The mathematical value of a `FileStat`.
pub struct Entry {
    pub extension: Seq<char>,
    pub size: u64,
}

/// The mathematical value of a `Statistic`.
pub struct Archive {
    pub title: Seq<char>,
    pub entries: Seq<Entry>,
    pub size: u64,
}

impl View for FileStat {
    type V = Entry;

    open spec fn view(&self) -> Entry {
        Entry { extension: self.extension@, size: self.size }
    }
}

/// The values of a sequence of entries, in the same order.
pub open spec fn entries(files: Seq<FileStat>) -> Seq<Entry> {
    Seq::new(files.len(), |i: int| files[i]@)
}

impl View for Statistic {
    type V = Archive;

    open spec fn view(&self) -> Archive {
        Archive { title: self.title@, entries: entries(self.files@), size: self.size }
    }
}

/// The values of a sequence of statistics, in the same order.
pub open spec fn archives(stats: Seq<Statistic>) -> Seq<Archive> {
    Seq::new(stats.len(), |i: int| stats[i]@)
}

/// The sum of the sizes of a sequence of entries.
pub open spec fn sizes_sum(files: Seq<Entry>) -> nat
    decreases files.len(),
{
    if files.len() == 0 {
        0
    } else {
        sizes_sum(files.drop_last()) + files.last().size as nat
    }
}

/// The sum over a prefix never exceeds the sum over the whole sequence.
pub proof fn lemma_sizes_sum_prefix(files: Seq<Entry>, n: int)
    requires
        0 <= n <= files.len(),
    ensures
        sizes_sum(files.take(n)) <= sizes_sum(files),
    decreases files.len(),
{
    if n == files.len() {
        assert(files.take(n) == files);
    } else {
        lemma_sizes_sum_prefix(files.drop_last(), n);
        assert(files.drop_last().take(n) == files.take(n));
    }
}

impl Archive {
    /// The recorded size is the sum of the entries' sizes.
    pub open spec fn wf(self) -> bool {
        self.size == sizes_sum(self.entries)
    }
}

impl FileStat {
    /// An entry with the same extension and size.
    pub fn duplicate(&self) -> (r: FileStat)
        ensures
            r == *self,
    {
        FileStat { extension: self.extension.clone(), size: self.size }
    }
}

/// Adds up the sizes of the entries; `None` when the sum does not fit in
/// `u64`.
pub fn total_size(files: &Vec<FileStat>) -> (r: Option<u64>)
    ensures
        match r {
            Some(total) => total == sizes_sum(entries(files@)),
            None => sizes_sum(entries(files@)) > u64::MAX,
        },
{
    let ghost all = entries(files@);
    let mut total: u64 = 0;
    let mut i: usize = 0;
    while i < files.len()
        invariant
            i <= files.len(),
            all == entries(files@),
            total == sizes_sum(all.take(i as int)),
        decreases files.len() - i,
    {
        proof {
            assert(all.take(i + 1).drop_last() == all.take(i as int));
            assert(all.take(i + 1).last() == files[i as int]@);
            lemma_sizes_sum_prefix(all, i + 1);
        }
        match total.checked_add(files[i].size) {
            Some(next) => {
                total = next;
            },
            None => {
                return None;
            },
        }
        i += 1;
    }
    proof {
        assert(all.take(i as int) == all);
    }
    Some(total)
}

impl Statistic {
    /// The recorded size is the sum of the entries' sizes.
    pub open spec fn wf(&self) -> bool {
        self@.wf()
    }

    /// The statistic of an archive with the given title and entries; `None`
    /// when the total size does not fit in `u64`.
    pub fn new(title: String, files: Vec<FileStat>) -> (r: Option<Statistic>)
        ensures
            match r {
                Some(stat) => stat.title == title && stat.files == files && stat.wf(),
                None => sizes_sum(entries(files@)) > u64::MAX,
            },
    {
        match total_size(&files) {
            Some(size) => Some(Statistic { title, files, size }),
            None => None,
        }
    }
}

} // verus!
