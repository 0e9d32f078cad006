//! Grouping the entries of all archives by a key and counting each group.

use crate::category::{category_of, CategoryTable};
use crate::paths::texts;
use crate::stat::{archives, entries, Archive, Entry, FileStat, Statistic};
use itertools::Itertools;
use vstd::prelude::*;

verus! {

/// One row of a histogram: a key and the number of entries that have it.
pub struct Count {
    pub key: String,
    pub count: u64,
}

/// The mathematical value of a `Count`.
pub struct Tally {
    pub key: Seq<char>,
    pub count: u64,
}

impl View for Count {
    type V = Tally;

    open spec fn view(&self) -> Tally {
        Tally { key: self.key@, count: self.count }
    }
}

impl Count {
    /// A row with the same key and count.
    pub fn duplicate(&self) -> (r: Count)
        ensures
            r == *self,
    {
        Count { key: self.key.clone(), count: self.count }
    }
}

/// The values of a sequence of rows, in the same order.
pub open spec fn tallies(rows: Seq<Count>) -> Seq<Tally> {
    Seq::new(rows.len(), |i: int| rows[i]@)
}

/// The entries of all archives, archive after archive.
pub open spec fn all_entries(archs: Seq<Archive>) -> Seq<Entry>
    decreases archs.len(),
{
    if archs.len() == 0 {
        Seq::empty()
    } else {
        all_entries(archs.drop_last()) + archs.last().entries
    }
}

/// How often a key occurs in a sequence of keys.
pub open spec fn occurrences(keys: Seq<Seq<char>>, key: Seq<char>) -> nat
    decreases keys.len(),
{
    if keys.len() == 0 {
        0
    } else {
        occurrences(keys.drop_last(), key) + if keys.last() == key {
            1nat
        } else {
            0nat
        }
    }
}

/// Which keys a histogram shows.
pub enum Filter {
    /// Every key.
    Any,
    /// The keys of at most this many bytes.
    AtMost(usize),
    /// The keys that are not empty.
    Named,
}

/// The length of a text in bytes, as `str::len` gives it.
pub open spec fn byte_len(text: Seq<char>) -> usize {
    vstd::utf8::encode_utf8(text).len() as usize
}

impl Filter {
    /// Whether the filter lets a key through.
    pub open spec fn admits(self, key: Seq<char>) -> bool {
        match self {
            Filter::Any => true,
            Filter::AtMost(limit) => byte_len(key) <= limit,
            Filter::Named => key.len() > 0,
        }
    }

    /// Tests a key.
    pub fn test(&self, key: &str) -> (r: bool)
        ensures
            r == self.admits(key@),
    {
        match self {
            Filter::Any => true,
            Filter::AtMost(limit) => key.len() <= *limit,
            Filter::Named => !key.is_empty(),
        }
    }
}

/// The rows are the histogram of the keys that the filter admits: one row for
/// each admitted key that occurs among `keys`, none for any other, and beside
/// each key the number of its occurrences.
pub open spec fn is_histogram(rows: Seq<Tally>, keys: Seq<Seq<char>>, filter: Filter) -> bool {
    &&& forall|i: int, j: int| 0 <= i < j < rows.len() ==> rows[i].key != rows[j].key
    &&& forall|i: int|
        0 <= i < rows.len() ==> {
            &&& filter.admits(#[trigger] rows[i].key)
            &&& rows[i].count > 0
            &&& rows[i].count == occurrences(keys, rows[i].key)
        }
    &&& forall|key: Seq<char>|
        filter.admits(key) && #[trigger] occurrences(keys, key) > 0 ==> exists|i: int|
            0 <= i < rows.len() && rows[i].key == key
}

/// The sum of the counts of a sequence of rows.
pub open spec fn counts_sum(rows: Seq<Tally>) -> nat
    decreases rows.len(),
{
    if rows.len() == 0 {
        0
    } else {
        counts_sum(rows.drop_last()) + rows.last().count as nat
    }
}

/// The keys other than `key`, in the same order.
pub open spec fn without(keys: Seq<Seq<char>>, key: Seq<char>) -> Seq<Seq<char>>
    decreases keys.len(),
{
    if keys.len() == 0 {
        Seq::empty()
    } else if keys.last() == key {
        without(keys.drop_last(), key)
    } else {
        without(keys.drop_last(), key).push(keys.last())
    }
}

/// Leaving a key out takes away its occurrences and no others.
pub proof fn lemma_without(keys: Seq<Seq<char>>, key: Seq<char>)
    ensures
        without(keys, key).len() + occurrences(keys, key) == keys.len(),
        occurrences(without(keys, key), key) == 0,
        forall|other: Seq<char>|
            other != key ==> #[trigger] occurrences(without(keys, key), other) == occurrences(
                keys,
                other,
            ),
    decreases keys.len(),
{
    if keys.len() > 0 {
        let shorter = keys.drop_last();
        lemma_without(shorter, key);
        if keys.last() != key {
            assert(without(keys, key).drop_last() == without(shorter, key));
        }
        assert forall|other: Seq<char>| other != key implies #[trigger] occurrences(
            without(keys, key),
            other,
        ) == occurrences(keys, other) by {
            assert(occurrences(without(shorter, key), other) == occurrences(shorter, other));
        }
    }
}

/// Where no key occurs, there are no keys.
pub proof fn lemma_occurrences_zero(keys: Seq<Seq<char>>)
    requires
        forall|key: Seq<char>| #[trigger] occurrences(keys, key) == 0,
    ensures
        keys.len() == 0,
{
    if keys.len() > 0 {
        assert(occurrences(keys, keys.last()) > 0);
    }
}

/// The counts of a histogram of all keys add up to the number of keys: no
/// key is lost and none is counted twice.
pub proof fn lemma_histogram_total(rows: Seq<Tally>, keys: Seq<Seq<char>>)
    requires
        is_histogram(rows, keys, Filter::Any),
    ensures
        counts_sum(rows) == keys.len(),
    decreases rows.len(),
{
    if rows.len() == 0 {
        assert forall|key: Seq<char>| #[trigger] occurrences(keys, key) == 0 by {
            if occurrences(keys, key) > 0 {
                assert(Filter::Any.admits(key));
            }
        }
        lemma_occurrences_zero(keys);
    } else {
        let last = rows.last();
        let rest = rows.drop_last();
        let others = without(keys, last.key);
        lemma_without(keys, last.key);
        assert forall|i: int| 0 <= i < rest.len() implies {
            &&& Filter::Any.admits(#[trigger] rest[i].key)
            &&& rest[i].count > 0
            &&& rest[i].count == occurrences(others, rest[i].key)
        } by {
            assert(rest[i] == rows[i]);
            assert(rows[i].key != rows[rows.len() - 1].key);
        }
        assert forall|key: Seq<char>|
            Filter::Any.admits(key) && #[trigger] occurrences(others, key) > 0 implies exists|
            i: int,
        | 0 <= i < rest.len() && rest[i].key == key by {
            assert(key != last.key);
            assert(occurrences(keys, key) > 0);
            let i = choose|i: int| 0 <= i < rows.len() && rows[i].key == key;
            assert(rest[i] == rows[i]);
        }
        assert forall|i: int, j: int| 0 <= i < j < rest.len() implies rest[i].key
            != rest[j].key by {
            assert(rest[i] == rows[i] && rest[j] == rows[j]);
        }
        lemma_histogram_total(rest, others);
        assert(Filter::Any.admits(rows[rows.len() - 1].key));
    }
}

/// The keys that a filter admits among those that occur.
pub open spec fn admitted_keys(keys: Seq<Seq<char>>, filter: Filter) -> Set<Seq<char>> {
    Set::new(|key: Seq<char>| filter.admits(key) && occurrences(keys, key) > 0)
}

/// A histogram has as many rows as there are distinct admitted keys.
pub proof fn lemma_histogram_len(rows: Seq<Tally>, keys: Seq<Seq<char>>, filter: Filter)
    requires
        is_histogram(rows, keys, filter),
    ensures
        admitted_keys(keys, filter).finite(),
        admitted_keys(keys, filter).len() == rows.len(),
{
    let heads = Seq::new(rows.len(), |i: int| rows[i].key);
    assert(heads.no_duplicates());
    heads.unique_seq_to_set();
    assert forall|key: Seq<char>| heads.to_set().contains(key) implies admitted_keys(
        keys,
        filter,
    ).contains(key) by {
        let i = choose|i: int| 0 <= i < heads.len() && heads[i] == key;
        assert(filter.admits(rows[i].key));
    }
    assert forall|key: Seq<char>| admitted_keys(keys, filter).contains(key) implies heads.to_set().contains(
        key,
    ) by {
        let i = choose|i: int| 0 <= i < rows.len() && rows[i].key == key;
        assert(heads[i] == key);
    }
    assert(heads.to_set() =~= admitted_keys(keys, filter));
}

/// The count after one more occurrence; it stays at the largest `u64`.
pub fn next_count(count: u64) -> (r: u64)
    ensures
        r == if count < u64::MAX {
            count + 1
        } else {
            count as int
        },
{
    if count < u64::MAX {
        count + 1
    } else {
        count
    }
}

/// Counts the keys with `Itertools::into_grouping_map_by` and
/// `GroupingMap::fold`, each occurrence adding one by `next_count`, and hands
/// the pairs of the resulting map out as rows: one row per distinct key, with
/// the number of its occurrences. The order of the rows is that in which the
/// map is walked, and is left open.
#[verifier::external_body]
fn count_keys(keys: &Vec<String>) -> (rows: Vec<Count>)
    ensures
        is_histogram(tallies(rows@), texts(keys@), Filter::Any),
{
    keys.iter()
        .into_grouping_map_by(|key| *key)
        .fold(0u64, |count, _, _| next_count(count))
        .into_iter()
        .map(|(key, count)| Count { key: key.clone(), count })
        .collect_vec()
}

/// A way to give each entry the key under which it is counted.
pub trait Grouping {
    /// The key of an entry.
    spec fn key_of(&self, entry: Entry) -> Seq<char>;

    /// Computes the key of an entry.
    fn key(&self, file: &FileStat) -> (key: String)
        ensures
            key@ == self.key_of(file@),
    ;
}

/// Groups entries by their extension.
pub struct ByExtension;

/// Groups entries by the category that a table gives to their extension.
pub struct ByCategory<'a> {
    pub table: &'a CategoryTable,
}

impl Grouping for ByExtension {
    open spec fn key_of(&self, entry: Entry) -> Seq<char> {
        entry.extension
    }

    fn key(&self, file: &FileStat) -> (key: String) {
        file.extension.clone()
    }
}

impl<'a> Grouping for ByCategory<'a> {
    open spec fn key_of(&self, entry: Entry) -> Seq<char> {
        category_of(self.table@, entry.extension)
    }

    fn key(&self, file: &FileStat) -> (key: String) {
        self.table.category(file.extension.as_str())
    }
}

/// The keys of a sequence of entries, in the same order.
pub open spec fn keys_of<G: Grouping>(files: Seq<Entry>, grouping: G) -> Seq<Seq<char>> {
    Seq::new(files.len(), |i: int| grouping.key_of(files[i]))
}

/// Counts the entries of all archives by the key that `grouping` gives them.
/// The order of the rows is left open.
pub fn group_by<G: Grouping>(stat: &[Statistic], grouping: &G) -> (rows: Vec<Count>)
    ensures
        is_histogram(tallies(rows@), keys_of(all_entries(archives(stat@)), *grouping), Filter::Any),
{
    let ghost archs = archives(stat@);
    let mut keys: Vec<String> = Vec::new();
    let mut i: usize = 0;
    while i < stat.len()
        invariant
            i <= stat.len(),
            archs == archives(stat@),
            texts(keys@) == keys_of(all_entries(archs.take(i as int)), *grouping),
        decreases stat.len() - i,
    {
        let files = &stat[i].files;
        let ghost done = all_entries(archs.take(i as int));
        let ghost these = entries(files@);
        let mut j: usize = 0;
        while j < files.len()
            invariant
                j <= files.len(),
                these == entries(files@),
                texts(keys@) == keys_of(done + these.take(j as int), *grouping),
            decreases files.len() - j,
        {
            let ghost before = keys@;
            let key = grouping.key(&files[j]);
            keys.push(key);
            proof {
                assert(texts(keys@) == texts(before).push(key@));
                assert(done + these.take(j + 1) == (done + these.take(j as int)).push(
                    files[j as int]@,
                ));
                assert(texts(keys@) == keys_of(done + these.take(j + 1), *grouping));
            }
            j += 1;
        }
        proof {
            assert(these.take(j as int) == these);
            assert(archs.take(i + 1).drop_last() == archs.take(i as int));
            assert(archs.take(i + 1).last().entries == these);
        }
        i += 1;
    }
    proof {
        assert(archs.take(i as int) == archs);
    }
    count_keys(&keys)
}

} // verus!
