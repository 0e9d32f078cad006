//! The reports that list archives by title: the overview of all archives, and
//! the search for the archives that hold files of one extension.

use crate::group::{
    all_entries, counts_sum, is_histogram, keys_of, lemma_histogram_total, occurrences, tallies,
    ByExtension, Count, Filter, Grouping, Tally,
};
use crate::order::{
    arranged, is_ascending, is_permutation, is_rearrangement, lemma_sum_arranged, order_by_text,
    sum,
};
use crate::query::counts_of;
use crate::paths::{same_text, texts};
use crate::query::arrange;
use crate::stat::{archives, entries, sizes_sum, Archive, Entry, FileStat, Statistic};
use vstd::prelude::*;

verus! {

/// How many of the entries have exactly the given extension.
pub open spec fn matches(files: Seq<Entry>, extension: Seq<char>) -> nat
    decreases files.len(),
{
    if files.len() == 0 {
        0
    } else {
        matches(files.drop_last(), extension) + if files.last().extension == extension {
            1nat
        } else {
            0nat
        }
    }
}

/// One row for each archive that holds an entry of the extension, in the
/// order of the archives: the archive's title and the number of such entries.
pub open spec fn hits(archs: Seq<Archive>, extension: Seq<char>) -> Seq<Tally>
    decreases archs.len(),
{
    if archs.len() == 0 {
        Seq::empty()
    } else {
        let head = hits(archs.drop_last(), extension);
        let count = matches(archs.last().entries, extension);
        if count > 0 {
            head.push(Tally { key: archs.last().title, count: count as u64 })
        } else {
            head
        }
    }
}

/// How many entries of all archives have exactly the given extension.
pub open spec fn total_matches(archs: Seq<Archive>, extension: Seq<char>) -> nat
    decreases archs.len(),
{
    if archs.len() == 0 {
        0
    } else {
        total_matches(archs.drop_last(), extension) + matches(archs.last().entries, extension)
    }
}

/// The keys of a sequence of rows, in the same order.
pub open spec fn keys_in(rows: Seq<Tally>) -> Seq<Seq<char>> {
    Seq::new(rows.len(), |i: int| rows[i].key)
}

/// The total over the first archives never exceeds the total over all.
pub proof fn lemma_total_matches_prefix(archs: Seq<Archive>, extension: Seq<char>, n: int)
    requires
        0 <= n <= archs.len(),
    ensures
        total_matches(archs.take(n), extension) <= total_matches(archs, extension),
    decreases archs.len(),
{
    if n == archs.len() {
        assert(archs.take(n) == archs);
    } else {
        lemma_total_matches_prefix(archs.drop_last(), extension, n);
        assert(archs.drop_last().take(n) == archs.take(n));
    }
}

/// There are no more rows than matching entries, and none where no entry
/// matches.
pub proof fn lemma_hits_len(archs: Seq<Archive>, extension: Seq<char>)
    ensures
        hits(archs, extension).len() <= total_matches(archs, extension),
    decreases archs.len(),
{
    if archs.len() > 0 {
        lemma_hits_len(archs.drop_last(), extension);
    }
}

/// The counts of the rows add up to the number of matching entries.
pub proof fn lemma_hits_total(archs: Seq<Archive>, extension: Seq<char>)
    requires
        forall|i: int| 0 <= i < archs.len() ==> (#[trigger] archs[i]).entries.len() <= u64::MAX,
    ensures
        counts_sum(hits(archs, extension)) == total_matches(archs, extension),
    decreases archs.len(),
{
    if archs.len() > 0 {
        let rest = archs.drop_last();
        assert forall|i: int| 0 <= i < rest.len() implies (#[trigger] rest[i]).entries.len()
            <= u64::MAX by {
            assert(rest[i] == archs[i]);
        }
        lemma_hits_total(rest, extension);
        lemma_matches_bound(archs.last().entries, extension);
        assert(archs[archs.len() - 1].entries.len() <= u64::MAX);
        if matches(archs.last().entries, extension) > 0 {
            assert(hits(archs, extension).drop_last() == hits(rest, extension));
        }
    }
}

/// No more entries match than there are.
pub proof fn lemma_matches_bound(files: Seq<Entry>, extension: Seq<char>)
    ensures
        matches(files, extension) <= files.len(),
    decreases files.len(),
{
    if files.len() > 0 {
        lemma_matches_bound(files.drop_last(), extension);
    }
}

/// The sum of the counts of rows is the sum of the list of their counts.
pub proof fn lemma_counts_sum(rows: Seq<Tally>)
    ensures
        counts_sum(rows) == sum(counts_of(rows)),
    decreases rows.len(),
{
    if rows.len() > 0 {
        lemma_counts_sum(rows.drop_last());
        assert(counts_of(rows).drop_last() == counts_of(rows.drop_last()));
    }
}

/// Rows keep the sum of their counts when they are put in another order.
pub proof fn lemma_counts_sum_rearranged(moved: Seq<Tally>, rows: Seq<Tally>)
    requires
        is_rearrangement(moved, rows),
    ensures
        counts_sum(moved) == counts_sum(rows),
{
    let order = choose|order: Seq<usize>|
        is_permutation(order, rows.len()) && moved == #[trigger] arranged(rows, order);
    lemma_counts_sum(moved);
    lemma_counts_sum(rows);
    lemma_sum_arranged(counts_of(rows), order);
    assert(counts_of(moved) == arranged(counts_of(rows), order));
}

/// How often a key occurs in two runs of keys is how often it occurs in the
/// one and in the other.
pub proof fn lemma_occurrences_concat(
    first: Seq<Seq<char>>,
    second: Seq<Seq<char>>,
    key: Seq<char>,
)
    ensures
        occurrences(first + second, key) == occurrences(first, key) + occurrences(second, key),
    decreases second.len(),
{
    if second.len() == 0 {
        assert(first + second == first);
    } else {
        lemma_occurrences_concat(first, second.drop_last(), key);
        assert((first + second).drop_last() == first + second.drop_last());
    }
}

/// The entries that a search counts are those that the histogram of
/// extensions counts under the same extension.
pub proof fn lemma_matches_are_occurrences(archs: Seq<Archive>, extension: Seq<char>)
    ensures
        total_matches(archs, extension) == occurrences(
            keys_of(all_entries(archs), ByExtension),
            extension,
        ),
    decreases archs.len(),
{
    if archs.len() > 0 {
        let rest = archs.drop_last();
        let last = archs.last().entries;
        lemma_matches_are_occurrences(rest, extension);
        lemma_entry_matches(last, extension);
        lemma_occurrences_concat(
            keys_of(all_entries(rest), ByExtension),
            keys_of(last, ByExtension),
            extension,
        );
        assert(keys_of(all_entries(archs), ByExtension) == keys_of(
            all_entries(rest),
            ByExtension,
        ) + keys_of(last, ByExtension));
    } else {
        assert(keys_of(all_entries(archs), ByExtension).len() == 0);
    }
}

/// Among the entries of one archive, as many match an extension as have it
/// for their key.
pub proof fn lemma_entry_matches(files: Seq<Entry>, extension: Seq<char>)
    ensures
        matches(files, extension) == occurrences(keys_of(files, ByExtension), extension),
    decreases files.len(),
{
    if files.len() > 0 {
        lemma_entry_matches(files.drop_last(), extension);
        assert(keys_of(files, ByExtension).drop_last() == keys_of(
            files.drop_last(),
            ByExtension,
        ));
    }
}

/// What a search found: the archives that hold the extension, by ascending
/// title, each with the number of its matching entries, and the number of
/// matching entries in all.
pub struct Found {
    pub rows: Vec<Count>,
    pub total: u64,
}

/// Counts the entries that have exactly the given extension.
pub fn count_matching(files: &Vec<FileStat>, extension: &str) -> (count: u64)
    ensures
        count == matches(entries(files@), extension@),
{
    let ghost all = entries(files@);
    let mut count: u64 = 0;
    let mut i: usize = 0;
    while i < files.len()
        invariant
            i <= files.len(),
            all == entries(files@),
            count == matches(all.take(i as int), extension@),
            count <= i,
        decreases files.len() - i,
    {
        proof {
            assert(all.take(i + 1).drop_last() == all.take(i as int));
            assert(all.take(i + 1).last() == files[i as int]@);
        }
        if same_text(files[i].extension.as_str(), extension) {
            count += 1;
        }
        i += 1;
    }
    proof {
        assert(all.take(i as int) == all);
    }
    count
}

/// The keys of the rows.
fn keys(rows: &Vec<Count>) -> (list: Vec<String>)
    ensures
        list@.len() == rows@.len(),
        texts(list@) == keys_in(tallies(rows@)),
{
    let mut list: Vec<String> = Vec::new();
    let mut i: usize = 0;
    while i < rows.len()
        invariant
            i <= rows.len(),
            list@.len() == i,
            texts(list@) == keys_in(tallies(rows@)).take(i as int),
        decreases rows.len() - i,
    {
        let ghost before = list@;
        let key = rows[i].key.clone();
        list.push(key);
        assert(texts(list@) == texts(before).push(key@));
        i += 1;
    }
    list
}

/// Searches the archives for the entries of one extension, compared letter
/// for letter. No archive that holds such an entry is no error: the rows are
/// then none, and the total is zero. `None` only where the total does not fit
/// in `u64`.
pub fn search_extension(stat: &[Statistic], extension: &str) -> (r: Option<Found>)
    ensures
        match r {
            Some(found) => {
                &&& is_rearrangement(tallies(found.rows@), hits(archives(stat@), extension@))
                &&& is_ascending(keys_in(tallies(found.rows@)))
                &&& found.total == total_matches(archives(stat@), extension@)
                &&& found.total == counts_sum(tallies(found.rows@))
                &&& found.total == 0 ==> found.rows@.len() == 0
            },
            None => total_matches(archives(stat@), extension@) > u64::MAX,
        },
{
    let ghost archs = archives(stat@);
    let mut found: Vec<Count> = Vec::new();
    let mut total: u64 = 0;
    let mut i: usize = 0;
    while i < stat.len()
        invariant
            i <= stat.len(),
            archs == archives(stat@),
            tallies(found@) == hits(archs.take(i as int), extension@),
            total == total_matches(archs.take(i as int), extension@),
        decreases stat.len() - i,
    {
        proof {
            assert(archs.take(i + 1).drop_last() == archs.take(i as int));
            assert(archs.take(i + 1).last() == stat[i as int]@);
            lemma_total_matches_prefix(archs, extension@, i + 1);
        }
        let count = count_matching(&stat[i].files, extension);
        if count > 0 {
            let ghost before = found@;
            let row = Count { key: stat[i].title.clone(), count };
            found.push(row);
            assert(tallies(found@) == tallies(before).push(row@));
        }
        match total.checked_add(count) {
            Some(sum) => {
                total = sum;
            },
            None => {
                return None;
            },
        }
        i += 1;
    }
    proof {
        assert(archs.take(i as int) == archs);
    }
    let order = order_by_text(&keys(&found));
    let rows = arrange(&found, &order, order.len());
    proof {
        let moved = arranged(tallies(found@), order@);
        assert(moved.take(moved.len() as int) == moved);
        assert(keys_in(moved) == arranged(keys_in(tallies(found@)), order@));
        lemma_hits_len(archs, extension@);
        assert forall|i: int| 0 <= i < archs.len() implies (#[trigger] archs[i]).entries.len()
            <= u64::MAX by {
            assert(archs[i].entries.len() == stat@[i].files.len());
        }
        lemma_hits_total(archs, extension@);
        assert(is_rearrangement(moved, tallies(found@)));
        lemma_counts_sum_rearranged(moved, tallies(found@));
    }
    Some(Found { rows, total })
}

/// One row of the overview: an archive's title, the number of its entries
/// and its recorded size.
pub struct Line {
    pub title: String,
    pub files: u64,
    pub size: u64,
}

/// The mathematical value of a `Line`.
pub struct Row {
    pub title: Seq<char>,
    pub files: u64,
    pub size: u64,
}

impl View for Line {
    type V = Row;

    open spec fn view(&self) -> Row {
        Row { title: self.title@, files: self.files, size: self.size }
    }
}

/// The values of a sequence of lines, in the same order.
pub open spec fn rows_of(lines: Seq<Line>) -> Seq<Row> {
    Seq::new(lines.len(), |i: int| lines[i]@)
}

/// The titles of a sequence of rows, in the same order.
pub open spec fn titles_in(rows: Seq<Row>) -> Seq<Seq<char>> {
    Seq::new(rows.len(), |i: int| rows[i].title)
}

/// One row for each archive, in the order of the archives.
pub open spec fn overview(archs: Seq<Archive>) -> Seq<Row> {
    Seq::new(
        archs.len(),
        |i: int|
            Row { title: archs[i].title, files: archs[i].entries.len() as u64, size: archs[i].size },
    )
}

/// The number of entries of all archives.
pub open spec fn entry_count(archs: Seq<Archive>) -> nat
    decreases archs.len(),
{
    if archs.len() == 0 {
        0
    } else {
        entry_count(archs.drop_last()) + archs.last().entries.len()
    }
}

/// The sum of the recorded sizes of all archives.
pub open spec fn recorded_size(archs: Seq<Archive>) -> nat
    decreases archs.len(),
{
    if archs.len() == 0 {
        0
    } else {
        recorded_size(archs.drop_last()) + archs.last().size as nat
    }
}

/// The entries of all archives, put one after the other, are as many as the
/// archives hold.
pub proof fn lemma_all_entries_len(archs: Seq<Archive>)
    ensures
        all_entries(archs).len() == entry_count(archs),
    decreases archs.len(),
{
    if archs.len() > 0 {
        lemma_all_entries_len(archs.drop_last());
    }
}

/// Grouping loses no entry and counts none twice: the counts of a histogram
/// of all keys add up to the number of entries that the overview reports.
pub proof fn lemma_no_entry_lost<G: Grouping>(archs: Seq<Archive>, grouping: G, rows: Seq<Tally>)
    requires
        is_histogram(rows, keys_of(all_entries(archs), grouping), Filter::Any),
    ensures
        counts_sum(rows) == entry_count(archs),
{
    lemma_histogram_total(rows, keys_of(all_entries(archs), grouping));
    lemma_all_entries_len(archs);
}

/// The sizes of two runs of entries add up to the size of both.
pub proof fn lemma_sizes_sum_concat(first: Seq<Entry>, second: Seq<Entry>)
    ensures
        sizes_sum(first + second) == sizes_sum(first) + sizes_sum(second),
    decreases second.len(),
{
    if second.len() == 0 {
        assert(first + second == first);
    } else {
        lemma_sizes_sum_concat(first, second.drop_last());
        assert((first + second).drop_last() == first + second.drop_last());
    }
}

/// Where each archive records the sum of the sizes of its entries, the total
/// size that the overview reports is the sum of the sizes of all entries.
pub proof fn lemma_recorded_size(archs: Seq<Archive>)
    requires
        forall|i: int| 0 <= i < archs.len() ==> (#[trigger] archs[i]).wf(),
    ensures
        recorded_size(archs) == sizes_sum(all_entries(archs)),
    decreases archs.len(),
{
    if archs.len() > 0 {
        let rest = archs.drop_last();
        assert forall|i: int| 0 <= i < rest.len() implies (#[trigger] rest[i]).wf() by {
            assert(rest[i] == archs[i]);
        }
        lemma_recorded_size(rest);
        lemma_sizes_sum_concat(all_entries(rest), archs.last().entries);
        assert(archs[archs.len() - 1].wf());
    }
}

/// The totals over the first archives never exceed the totals over all.
pub proof fn lemma_totals_prefix(archs: Seq<Archive>, n: int)
    requires
        0 <= n <= archs.len(),
    ensures
        entry_count(archs.take(n)) <= entry_count(archs),
        recorded_size(archs.take(n)) <= recorded_size(archs),
    decreases archs.len(),
{
    if n == archs.len() {
        assert(archs.take(n) == archs);
    } else {
        lemma_totals_prefix(archs.drop_last(), n);
        assert(archs.drop_last().take(n) == archs.take(n));
    }
}

/// The overview of all archives: one row per archive, by ascending title, and
/// the totals.
pub struct Listing {
    pub rows: Vec<Line>,
    pub total_files: u64,
    pub total_size: u64,
}

/// The titles of the lines.
fn titles(lines: &Vec<Line>) -> (list: Vec<String>)
    ensures
        list@.len() == lines@.len(),
        texts(list@) == titles_in(rows_of(lines@)),
{
    let mut list: Vec<String> = Vec::new();
    let mut i: usize = 0;
    while i < lines.len()
        invariant
            i <= lines.len(),
            list@.len() == i,
            texts(list@) == titles_in(rows_of(lines@)).take(i as int),
        decreases lines.len() - i,
    {
        let ghost before = list@;
        let title = lines[i].title.clone();
        list.push(title);
        assert(texts(list@) == texts(before).push(title@));
        i += 1;
    }
    list
}

/// Copies the lines in the given order.
fn arrange_lines(lines: &Vec<Line>, order: &Vec<usize>) -> (moved: Vec<Line>)
    requires
        is_permutation(order@, lines@.len()),
    ensures
        rows_of(moved@) == arranged(rows_of(lines@), order@),
{
    let mut moved: Vec<Line> = Vec::new();
    let mut i: usize = 0;
    while i < order.len()
        invariant
            i <= order.len(),
            is_permutation(order@, lines@.len()),
            rows_of(moved@) == arranged(rows_of(lines@), order@).take(i as int),
        decreases order.len() - i,
    {
        let ghost before = moved@;
        let from = &lines[order[i]];
        let line = Line { title: from.title.clone(), files: from.files, size: from.size };
        moved.push(line);
        assert(rows_of(moved@) == rows_of(before).push(line@));
        i += 1;
    }
    proof {
        let all = arranged(rows_of(lines@), order@);
        assert(all.take(all.len() as int) == all);
    }
    moved
}

/// Lists the archives by ascending title, with the number of entries and the
/// recorded size of each, and adds both up. `None` only where a total does
/// not fit in `u64`.
pub fn listing(stat: &[Statistic]) -> (r: Option<Listing>)
    ensures
        match r {
            Some(list) => {
                &&& is_rearrangement(rows_of(list.rows@), overview(archives(stat@)))
                &&& is_ascending(titles_in(rows_of(list.rows@)))
                &&& list.total_files == entry_count(archives(stat@))
                &&& list.total_size == recorded_size(archives(stat@))
            },
            None => entry_count(archives(stat@)) > u64::MAX || recorded_size(archives(stat@))
                > u64::MAX,
        },
{
    let ghost archs = archives(stat@);
    let mut lines: Vec<Line> = Vec::new();
    let mut total_files: u64 = 0;
    let mut total_size: u64 = 0;
    let mut i: usize = 0;
    while i < stat.len()
        invariant
            i <= stat.len(),
            archs == archives(stat@),
            rows_of(lines@) == overview(archs).take(i as int),
            total_files == entry_count(archs.take(i as int)),
            total_size == recorded_size(archs.take(i as int)),
        decreases stat.len() - i,
    {
        proof {
            assert(archs.take(i + 1).drop_last() == archs.take(i as int));
            assert(archs.take(i + 1).last() == stat[i as int]@);
            lemma_totals_prefix(archs, i + 1);
        }
        let files = stat[i].files.len() as u64;
        let ghost before = lines@;
        let line = Line { title: stat[i].title.clone(), files, size: stat[i].size };
        lines.push(line);
        assert(rows_of(lines@) == rows_of(before).push(line@));
        match (total_files.checked_add(files), total_size.checked_add(stat[i].size)) {
            (Some(count), Some(size)) => {
                total_files = count;
                total_size = size;
            },
            _ => {
                return None;
            },
        }
        i += 1;
    }
    proof {
        assert(archs.take(i as int) == archs);
        assert(overview(archs).take(i as int) == overview(archs));
    }
    let order = order_by_text(&titles(&lines));
    let rows = arrange_lines(&lines, &order);
    proof {
        assert(titles_in(rows_of(rows@)) == arranged(titles_in(rows_of(lines@)), order@));
    }
    Some(Listing { rows, total_files, total_size })
}

} // verus!
