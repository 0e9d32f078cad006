//! The histograms: how many entries have each extension, and how many belong
//! to each category, most frequent first.

use crate::category::CategoryTable;
use crate::category::uncategorized;
use crate::group::{
    admitted_keys, all_entries, byte_len, group_by, is_histogram, keys_of, lemma_histogram_len,
    occurrences, tallies, ByCategory, ByExtension, Count, Filter, Grouping, Tally,
};
use crate::order::{
    arranged, is_descending, is_permutation, lemma_permutation_covers, order_by_count,
};
use crate::stat::{archives, Statistic};
use vstd::prelude::*;

verus! {

/// The counts of a sequence of rows, in the same order.
pub open spec fn counts_of(rows: Seq<Tally>) -> Seq<u64> {
    Seq::new(rows.len(), |i: int| rows[i].count)
}

/// The rows whose key the filter admits, in the same order.
pub open spec fn selected(rows: Seq<Tally>, filter: Filter) -> Seq<Tally>
    decreases rows.len(),
{
    if rows.len() == 0 {
        Seq::empty()
    } else {
        let head = selected(rows.drop_last(), filter);
        if filter.admits(rows.last().key) {
            head.push(rows.last())
        } else {
            head
        }
    }
}

/// Whether a row occurs among the rows.
pub open spec fn has_row(rows: Seq<Tally>, row: Tally) -> bool {
    exists|i: int| 0 <= i < rows.len() && rows[i] == row
}

/// What is selected comes from the rows and passes the filter, and every row
/// that passes the filter is selected.
pub proof fn lemma_selected_members(rows: Seq<Tally>, filter: Filter)
    ensures
        forall|t: int|
            #![trigger selected(rows, filter)[t]]
            0 <= t < selected(rows, filter).len() ==> {
                &&& filter.admits(selected(rows, filter)[t].key)
                &&& has_row(rows, selected(rows, filter)[t])
            },
        forall|i: int|
            #![trigger rows[i]]
            0 <= i < rows.len() && filter.admits(rows[i].key) ==> has_row(
                selected(rows, filter),
                rows[i],
            ),
    decreases rows.len(),
{
    if rows.len() > 0 {
        let rest = rows.drop_last();
        let head = selected(rest, filter);
        let all = selected(rows, filter);
        lemma_selected_members(rest, filter);
        assert forall|t: int| #![trigger all[t]] 0 <= t < all.len() implies {
            &&& filter.admits(all[t].key)
            &&& has_row(rows, all[t])
        } by {
            if t < head.len() {
                assert(all[t] == head[t]);
                assert(has_row(rest, head[t]));
                let i = choose|i: int| 0 <= i < rest.len() && rest[i] == head[t];
                assert(rows[i] == all[t]);
            } else {
                assert(rows[rows.len() - 1] == all[t]);
            }
        }
        assert forall|i: int|
            #![trigger rows[i]]
            0 <= i < rows.len() && filter.admits(rows[i].key) implies has_row(all, rows[i]) by {
            if i < rest.len() {
                assert(rest[i] == rows[i]);
                assert(has_row(head, rest[i]));
                let t = choose|t: int| 0 <= t < head.len() && head[t] == rest[i];
                assert(all[t] == rows[i]);
            } else {
                assert(all[all.len() - 1] == rows[i]);
            }
        }
    }
}

/// Rows with distinct keys stay distinct when some are selected.
pub proof fn lemma_selected_distinct(rows: Seq<Tally>, filter: Filter)
    requires
        forall|i: int, j: int| 0 <= i < j < rows.len() ==> rows[i].key != rows[j].key,
    ensures
        forall|s: int, t: int|
            0 <= s < t < selected(rows, filter).len() ==> selected(rows, filter)[s].key
                != selected(rows, filter)[t].key,
    decreases rows.len(),
{
    if rows.len() > 0 {
        let rest = rows.drop_last();
        let head = selected(rest, filter);
        let all = selected(rows, filter);
        assert forall|i: int, j: int| 0 <= i < j < rest.len() implies rest[i].key
            != rest[j].key by {
            assert(rest[i] == rows[i] && rest[j] == rows[j]);
        }
        lemma_selected_distinct(rest, filter);
        lemma_selected_members(rest, filter);
        assert forall|s: int, t: int| 0 <= s < t < all.len() implies all[s].key != all[t].key by {
            assert(all[s] == head[s]);
            if t < head.len() {
                assert(all[t] == head[t]);
            } else {
                assert(has_row(rest, head[s]));
                let i = choose|i: int| 0 <= i < rest.len() && rest[i] == head[s];
                assert(rows[i] == head[s]);
                assert(all[t] == rows[rows.len() - 1]);
            }
        }
    }
}

/// Selecting from the histogram of all keys gives the histogram of the keys
/// that the filter admits.
pub proof fn lemma_selected_histogram(rows: Seq<Tally>, keys: Seq<Seq<char>>, filter: Filter)
    requires
        is_histogram(rows, keys, Filter::Any),
    ensures
        is_histogram(selected(rows, filter), keys, filter),
{
    let kept = selected(rows, filter);
    lemma_selected_members(rows, filter);
    lemma_selected_distinct(rows, filter);
    assert forall|t: int| 0 <= t < kept.len() implies {
        &&& filter.admits(#[trigger] kept[t].key)
        &&& kept[t].count > 0
        &&& kept[t].count == occurrences(keys, kept[t].key)
    } by {
        assert(has_row(rows, kept[t]));
        let i = choose|i: int| 0 <= i < rows.len() && rows[i] == kept[t];
        assert(Filter::Any.admits(rows[i].key));
    }
    assert forall|key: Seq<char>|
        filter.admits(key) && #[trigger] occurrences(keys, key) > 0 implies exists|t: int|
        0 <= t < kept.len() && kept[t].key == key by {
        assert(Filter::Any.admits(key));
        let i = choose|i: int| 0 <= i < rows.len() && rows[i].key == key;
        assert(has_row(kept, rows[i]));
        let t = choose|t: int| 0 <= t < kept.len() && kept[t] == rows[i];
        assert(kept[t].key == key);
    }
}

/// A histogram stays one when its rows are put in another order.
pub proof fn lemma_arranged_histogram(
    rows: Seq<Tally>,
    order: Seq<usize>,
    keys: Seq<Seq<char>>,
    filter: Filter,
)
    requires
        is_histogram(rows, keys, filter),
        is_permutation(order, rows.len()),
    ensures
        is_histogram(arranged(rows, order), keys, filter),
{
    let moved = arranged(rows, order);
    assert forall|i: int, j: int| 0 <= i < j < moved.len() implies moved[i].key
        != moved[j].key by {
        let a = order[i] as int;
        let b = order[j] as int;
        assert(a != b);
        if a < b {
            assert(rows[a].key != rows[b].key);
        } else {
            assert(rows[b].key != rows[a].key);
        }
    }
    assert forall|i: int| 0 <= i < moved.len() implies {
        &&& filter.admits(#[trigger] moved[i].key)
        &&& moved[i].count > 0
        &&& moved[i].count == occurrences(keys, moved[i].key)
    } by {
        let a = order[i] as int;
        assert(moved[i] == rows[a]);
        assert(filter.admits(rows[a].key));
    }
    assert forall|key: Seq<char>|
        filter.admits(key) && #[trigger] occurrences(keys, key) > 0 implies exists|
        i: int,
    | 0 <= i < moved.len() && moved[i].key == key by {
        let a = choose|a: int| 0 <= a < rows.len() && rows[a].key == key;
        lemma_permutation_covers(order, rows.len(), a);
        let i = choose|i: int| 0 <= i < rows.len() && order[i] == a;
        assert(moved[i] == rows[a]);
    }
}

/// The rows are the complete ranking of the admitted keys: their histogram,
/// with no count followed by a larger one.
pub open spec fn is_ranking(full: Seq<Tally>, keys: Seq<Seq<char>>, filter: Filter) -> bool {
    is_histogram(full, keys, filter) && is_descending(counts_of(full))
}

/// The first `top` rows of a ranking, and all of them where `top` is absent
/// or not smaller than their number.
pub open spec fn leading(full: Seq<Tally>, top: Option<usize>) -> Seq<Tally> {
    match top {
        Some(limit) if limit < full.len() => full.take(limit as int),
        _ => full,
    }
}

/// The rows are what leads some complete ranking of the admitted keys. Where
/// counts are equal, more than one ranking is complete.
pub open spec fn is_top_ranking(
    rows: Seq<Tally>,
    keys: Seq<Seq<char>>,
    filter: Filter,
    top: Option<usize>,
) -> bool {
    exists|full: Seq<Tally>| is_ranking(full, keys, filter) && rows == leading(full, top)
}

/// What leads a ranking is as long as `top` allows and as the ranking
/// reaches, and no row left out has a larger count than a row kept.
pub proof fn lemma_leading(full: Seq<Tally>, top: Option<usize>)
    requires
        is_descending(counts_of(full)),
    ensures
        leading(full, top).len() == match top {
            Some(limit) if limit < full.len() => limit as nat,
            _ => full.len(),
        },
        forall|i: int| 0 <= i < leading(full, top).len() ==> leading(full, top)[i] == full[i],
        forall|i: int, j: int|
            0 <= i < leading(full, top).len() <= j < full.len() ==> full[i].count >= full[j].count,
{
    assert forall|i: int, j: int| 0 <= i < leading(full, top).len() <= j < full.len() implies full[i].count
        >= full[j].count by {
        assert(counts_of(full)[i] >= counts_of(full)[j]);
    }
}

/// The first `top` rows of the histogram are those of the keys that occur
/// most often: as many rows as `top` asks for, or one for each distinct
/// admitted key where these are fewer; each with an admitted key and the
/// number of its occurrences; no key twice; no count followed by a larger
/// one; and every admitted key that has no row occurs no more often than
/// any key that has one.
pub proof fn lemma_top_ranking(
    rows: Seq<Tally>,
    keys: Seq<Seq<char>>,
    filter: Filter,
    top: Option<usize>,
)
    requires
        is_top_ranking(rows, keys, filter, top),
    ensures
        admitted_keys(keys, filter).finite(),
        rows.len() == match top {
            Some(limit) if limit < admitted_keys(keys, filter).len() => limit as nat,
            _ => admitted_keys(keys, filter).len(),
        },
        forall|i: int, j: int| 0 <= i < j < rows.len() ==> rows[i].key != rows[j].key,
        forall|i: int|
            0 <= i < rows.len() ==> {
                &&& filter.admits(#[trigger] rows[i].key)
                &&& rows[i].count == occurrences(keys, rows[i].key)
            },
        is_descending(counts_of(rows)),
        forall|key: Seq<char>, i: int|
            #![trigger occurrences(keys, key), rows[i]]
            admitted_keys(keys, filter).contains(key) && 0 <= i < rows.len() ==> has_key(
                rows,
                key,
            ) || rows[i].count >= occurrences(keys, key),
{
    let full = choose|full: Seq<Tally>|
        is_ranking(full, keys, filter) && rows == leading(full, top);
    lemma_histogram_len(full, keys, filter);
    lemma_leading(full, top);
    assert forall|i: int| 0 <= i < rows.len() implies {
        &&& filter.admits(#[trigger] rows[i].key)
        &&& rows[i].count == occurrences(keys, rows[i].key)
    } by {
        assert(rows[i] == full[i]);
        assert(filter.admits(full[i].key));
    }
    assert forall|i: int, j: int| 0 <= i < j < rows.len() implies counts_of(rows)[i]
        >= counts_of(rows)[j] by {
        assert(counts_of(full)[i] >= counts_of(full)[j]);
    }
    assert forall|key: Seq<char>, i: int|
        #![trigger occurrences(keys, key), rows[i]]
        admitted_keys(keys, filter).contains(key) && 0 <= i < rows.len() implies has_key(
        rows,
        key,
    ) || rows[i].count >= occurrences(keys, key) by {
        let j = choose|j: int| 0 <= j < full.len() && full[j].key == key;
        assert(filter.admits(full[j].key));
        if j < rows.len() {
            assert(rows[j] == full[j]);
        } else {
            assert(rows[i] == full[i]);
        }
    }
}

/// Whether a key heads one of the rows.
pub open spec fn has_key(rows: Seq<Tally>, key: Seq<char>) -> bool {
    exists|i: int| 0 <= i < rows.len() && rows[i].key == key
}

/// Copies the rows that the filter admits.
fn select(rows: &Vec<Count>, filter: &Filter) -> (kept: Vec<Count>)
    ensures
        tallies(kept@) == selected(tallies(rows@), *filter),
{
    let ghost all = tallies(rows@);
    let mut kept: Vec<Count> = Vec::new();
    let mut i: usize = 0;
    while i < rows.len()
        invariant
            i <= rows.len(),
            all == tallies(rows@),
            tallies(kept@) == selected(all.take(i as int), *filter),
        decreases rows.len() - i,
    {
        proof {
            assert(all.take(i + 1).drop_last() == all.take(i as int));
            assert(all.take(i + 1).last() == rows[i as int]@);
        }
        if filter.test(rows[i].key.as_str()) {
            let ghost before = kept@;
            let row = rows[i].duplicate();
            kept.push(row);
            assert(tallies(kept@) == tallies(before).push(row@));
        }
        i += 1;
    }
    proof {
        assert(all.take(i as int) == all);
    }
    kept
}

/// The counts of the rows.
fn counts(rows: &Vec<Count>) -> (list: Vec<u64>)
    ensures
        list@ == counts_of(tallies(rows@)),
{
    let mut list: Vec<u64> = Vec::new();
    let mut i: usize = 0;
    while i < rows.len()
        invariant
            i <= rows.len(),
            list@ == counts_of(tallies(rows@)).take(i as int),
        decreases rows.len() - i,
    {
        list.push(rows[i].count);
        i += 1;
    }
    list
}

/// Copies the first `limit` rows of the given order.
pub(crate) fn arrange(rows: &Vec<Count>, order: &Vec<usize>, limit: usize) -> (moved: Vec<Count>)
    requires
        is_permutation(order@, rows@.len()),
        limit <= order.len(),
    ensures
        tallies(moved@) == arranged(tallies(rows@), order@).take(limit as int),
{
    let mut moved: Vec<Count> = Vec::new();
    let mut i: usize = 0;
    while i < limit
        invariant
            i <= limit <= order.len(),
            is_permutation(order@, rows@.len()),
            tallies(moved@) == arranged(tallies(rows@), order@).take(i as int),
        decreases limit - i,
    {
        let ghost before = moved@;
        let row = rows[order[i]].duplicate();
        moved.push(row);
        assert(tallies(moved@) == tallies(before).push(row@));
        i += 1;
    }
    moved
}

/// The histogram of the entries of all archives under the given grouping,
/// restricted to the keys that the filter admits, most frequent first, and
/// cut after `top` rows where `top` is given.
pub fn histogram<G: Grouping>(
    stat: &[Statistic],
    grouping: &G,
    filter: Filter,
    top: Option<usize>,
) -> (rows: Vec<Count>)
    ensures
        is_top_ranking(
            tallies(rows@),
            keys_of(all_entries(archives(stat@)), *grouping),
            filter,
            top,
        ),
{
    let ghost keys = keys_of(all_entries(archives(stat@)), *grouping);
    let grouped = group_by(stat, grouping);
    let kept = select(&grouped, &filter);
    let order = order_by_count(&counts(&kept));
    let limit = match top {
        Some(limit) if limit < order.len() => limit,
        _ => order.len(),
    };
    let rows = arrange(&kept, &order, limit);
    proof {
        let full = arranged(tallies(kept@), order@);
        lemma_selected_histogram(tallies(grouped@), keys, filter);
        lemma_arranged_histogram(tallies(kept@), order@, keys, filter);
        assert(counts_of(full) == arranged(counts_of(tallies(kept@)), order@));
        assert(full.take(full.len() as int) == full);
        assert(is_ranking(full, keys, filter));
        assert(tallies(rows@) == leading(full, top));
    }
    rows
}

/// How many entries have each extension, over all archives: the extensions
/// of at most `max_len` bytes, most frequent first, and only the first `top`
/// of them where `top` is given.
pub fn extension_histogram(
    stat: &[Statistic],
    max_len: usize,
    top: Option<usize>,
) -> (rows: Vec<Count>)
    ensures
        is_top_ranking(
            tallies(rows@),
            keys_of(all_entries(archives(stat@)), ByExtension),
            Filter::AtMost(max_len),
            top,
        ),
        forall|i: int| 0 <= i < rows@.len() ==> byte_len(#[trigger] rows@[i].key@) <= max_len,
        top matches Some(limit) ==> rows@.len() <= limit,
{
    let rows = histogram(stat, &ByExtension, Filter::AtMost(max_len), top);
    proof {
        let keys = keys_of(all_entries(archives(stat@)), ByExtension);
        lemma_top_ranking(tallies(rows@), keys, Filter::AtMost(max_len), top);
        assert forall|i: int| 0 <= i < rows@.len() implies byte_len(#[trigger] rows@[i].key@)
            <= max_len by {
            assert(Filter::AtMost(max_len).admits(tallies(rows@)[i].key));
        }
    }
    rows
}

/// How many entries belong to each category, over all archives: the entries
/// whose extension the table gives a category, most frequent category first,
/// and only the first `top` categories where `top` is given. The
/// uncategorized entries are left out.
pub fn category_histogram(
    stat: &[Statistic],
    table: &CategoryTable,
    top: Option<usize>,
) -> (rows: Vec<Count>)
    ensures
        is_top_ranking(
            tallies(rows@),
            keys_of(all_entries(archives(stat@)), (ByCategory { table })),
            Filter::Named,
            top,
        ),
        forall|i: int| 0 <= i < rows@.len() ==> #[trigger] rows@[i].key@ != uncategorized(),
        top matches Some(limit) ==> rows@.len() <= limit,
{
    let rows = histogram(stat, &ByCategory { table }, Filter::Named, top);
    proof {
        let keys = keys_of(all_entries(archives(stat@)), (ByCategory { table }));
        lemma_top_ranking(tallies(rows@), keys, Filter::Named, top);
        assert forall|i: int| 0 <= i < rows@.len() implies #[trigger] rows@[i].key@
            != uncategorized() by {
            assert(Filter::Named.admits(tallies(rows@)[i].key));
        }
    }
    rows
}

} // verus!
