//! Orders in which rows are presented: by descending count and by ascending
//! title. The sorting itself is done by `itertools`; what it returns is an
//! order, a list of positions, which verified code then follows.

use crate::paths::texts;
use itertools::Itertools;
use std::cmp::Ordering;
use vstd::prelude::*;
use vstd::std_specs::iter::IteratorSpec;

verus! {

/// A list of `n` positions in which each of `0..n` occurs exactly once.
pub open spec fn is_permutation(order: Seq<usize>, n: nat) -> bool {
    &&& order.len() == n
    &&& forall|i: int| 0 <= i < order.len() ==> #[trigger] order[i] < n
    &&& forall|i: int, j: int| 0 <= i < j < order.len() ==> order[i] != order[j]
}

/// The items in the given order: the item at position `order[0]` first.
pub open spec fn arranged<T>(items: Seq<T>, order: Seq<usize>) -> Seq<T> {
    Seq::new(order.len(), |i: int| items[positions(order)[i]])
}

/// A list of positions as mathematical integers.
pub open spec fn positions(order: Seq<usize>) -> Seq<int> {
    Seq::new(order.len(), |i: int| order[i] as int)
}

/// The first sequence holds the items of the second, each as often, in some
/// order.
pub open spec fn is_rearrangement<T>(moved: Seq<T>, items: Seq<T>) -> bool {
    exists|order: Seq<usize>|
        is_permutation(order, items.len()) && moved == #[trigger] arranged(items, order)
}

/// In a permutation every position occurs.
pub proof fn lemma_permutation_covers(order: Seq<usize>, n: nat, k: int)
    requires
        is_permutation(order, n),
        0 <= k < n,
    ensures
        exists|i: int| 0 <= i < n && order[i] == k,
{
    let p = positions(order);
    assert(p.no_duplicates());
    p.unique_seq_to_set();
    vstd::set_lib::lemma_int_range(0, n as int);
    let range = vstd::set_lib::set_int_range(0, n as int);
    assert forall|x: int| p.to_set().contains(x) implies range.contains(x) by {
        let i = choose|i: int| 0 <= i < p.len() && p[i] == x;
        assert(order[i] < n);
    }
    vstd::set_lib::lemma_len_subset(p.to_set(), range);
    vstd::set_lib::lemma_subset_equality(p.to_set(), range);
    assert(range.contains(k));
    assert(p.to_set().contains(k));
    let i = choose|i: int| 0 <= i < p.len() && p[i] == k;
    assert(order[i] == k);
}

/// No number is followed by a larger one.
pub open spec fn is_descending(counts: Seq<u64>) -> bool {
    forall|i: int, j: int| 0 <= i < j < counts.len() ==> counts[i] >= counts[j]
}

/// Whether `a` comes strictly before `b` in the lexicographic order of their
/// characters, a proper prefix before the longer text.
pub open spec fn text_lt(a: Seq<char>, b: Seq<char>) -> bool
    decreases a.len(),
{
    if b.len() == 0 {
        false
    } else if a.len() == 0 {
        true
    } else if a[0] != b[0] {
        a[0] < b[0]
    } else {
        text_lt(a.drop_first(), b.drop_first())
    }
}

/// No text is followed by one that comes strictly before it.
pub open spec fn is_ascending(texts: Seq<Seq<char>>) -> bool {
    forall|i: int, j: int| 0 <= i < j < texts.len() ==> !text_lt(texts[j], texts[i])
}

/// The sum of a sequence of numbers.
pub open spec fn sum(values: Seq<u64>) -> nat
    decreases values.len(),
{
    if values.len() == 0 {
        0
    } else {
        sum(values.drop_last()) + values.last() as nat
    }
}

/// The sum over the first numbers never exceeds the sum over all.
pub proof fn lemma_sum_prefix(values: Seq<u64>, n: int)
    requires
        0 <= n <= values.len(),
    ensures
        sum(values.take(n)) <= sum(values),
    decreases values.len(),
{
    if n == values.len() {
        assert(values.take(n) == values);
    } else {
        lemma_sum_prefix(values.drop_last(), n);
        assert(values.drop_last().take(n) == values.take(n));
    }
}

/// Taking one number out lowers the sum by that number.
pub proof fn lemma_sum_remove(values: Seq<u64>, at: int)
    requires
        0 <= at < values.len(),
    ensures
        sum(values) == sum(values.remove(at)) + values[at],
    decreases values.len(),
{
    if at == values.len() - 1 {
        assert(values.remove(at) == values.drop_last());
    } else {
        lemma_sum_remove(values.drop_last(), at);
        assert(values.remove(at).drop_last() == values.drop_last().remove(at));
        assert(values.remove(at).last() == values.last());
    }
}

/// Numbers add up to the same in any order.
pub proof fn lemma_sum_arranged(values: Seq<u64>, order: Seq<usize>)
    requires
        is_permutation(order, values.len()),
    ensures
        sum(arranged(values, order)) == sum(values),
    decreases values.len(),
{
    if values.len() > 0 {
        let last = values.len() - 1;
        lemma_permutation_covers(order, values.len(), last);
        let at = choose|at: int| 0 <= at < values.len() && order[at] == last;
        let others = order.remove(at);
        assert forall|i: int| 0 <= i < others.len() implies #[trigger] others[i] < last by {
            if i < at {
                assert(others[i] == order[i]);
            } else {
                assert(others[i] == order[i + 1]);
            }
        }
        assert forall|i: int, j: int| 0 <= i < j < others.len() implies others[i]
            != others[j] by {
            let a = if i < at { i } else { i + 1 };
            let b = if j < at { j } else { j + 1 };
            assert(others[i] == order[a] && others[j] == order[b]);
        }
        lemma_sum_arranged(values.drop_last(), others);
        lemma_sum_remove(arranged(values, order), at);
        assert(arranged(values, order).remove(at) == arranged(values.drop_last(), others));
    } else {
        assert(arranged(values, order) == values);
    }
}

/// Compares two counts so that the larger one sorts first.
pub fn descending(a: u64, b: u64) -> (o: Ordering)
    ensures
        o is Less <==> a > b,
        o is Equal <==> a == b,
        o is Greater <==> a < b,
{
    if a > b {
        Ordering::Less
    } else if a < b {
        Ordering::Greater
    } else {
        Ordering::Equal
    }
}

/// Compares two texts in the lexicographic order of their characters.
pub fn text_order(a: &str, b: &str) -> (o: Ordering)
    ensures
        o is Less <==> text_lt(a@, b@),
        o is Equal <==> a@ == b@,
        o is Greater <==> text_lt(b@, a@),
{
    let mut left = a.chars();
    let mut right = b.chars();
    proof {
        vstd::string::axiom_spec_iter(a);
        vstd::string::axiom_spec_iter(b);
    }
    let ghost mut rest_a = a@;
    let ghost mut rest_b = b@;
    loop
        invariant
            left.remaining() == rest_a,
            right.remaining() == rest_b,
            text_lt(a@, b@) == text_lt(rest_a, rest_b),
            text_lt(b@, a@) == text_lt(rest_b, rest_a),
            (a@ == b@) == (rest_a == rest_b),
        decreases rest_a.len(),
    {
        let ghost before_left = left;
        let ghost before_right = right;
        let x = left.next();
        let y = right.next();
        proof {
            vstd::string::next_postcondition(&before_left, &left, x);
            vstd::string::next_postcondition(&before_right, &right, y);
        }
        match (x, y) {
            (None, None) => {
                assert(rest_a =~= rest_b);
                return Ordering::Equal;
            },
            (None, Some(_)) => {
                return Ordering::Less;
            },
            (Some(_), None) => {
                return Ordering::Greater;
            },
            (Some(p), Some(q)) => {
                if p < q {
                    return Ordering::Less;
                } else if q < p {
                    return Ordering::Greater;
                }
                proof {
                    assert(rest_a == seq![p] + rest_a.drop_first());
                    assert(rest_b == seq![q] + rest_b.drop_first());
                    rest_a = rest_a.drop_first();
                    rest_b = rest_b.drop_first();
                }
            },
        }
    }
}

/// What rows are sorted by: a count, the larger first, or a title, in
/// lexicographic order.
pub enum SortKey {
    Count(u64),
    Title(String),
}

/// The mathematical value of a `SortKey`.
pub enum Rank {
    Count(u64),
    Title(Seq<char>),
}

impl View for SortKey {
    type V = Rank;

    open spec fn view(&self) -> Rank {
        match self {
            SortKey::Count(count) => Rank::Count(*count),
            SortKey::Title(title) => Rank::Title(title@),
        }
    }
}

/// The values of a sequence of sort keys, in the same order.
pub open spec fn ranks(keys: Seq<SortKey>) -> Seq<Rank> {
    Seq::new(keys.len(), |i: int| keys[i]@)
}

/// Whether `a` has to come before `b`: the larger of two counts, the
/// lexicographically smaller of two titles, and a count before a title.
pub open spec fn precedes(a: Rank, b: Rank) -> bool {
    match (a, b) {
        (Rank::Count(x), Rank::Count(y)) => x > y,
        (Rank::Title(x), Rank::Title(y)) => text_lt(x, y),
        (Rank::Count(_), Rank::Title(_)) => true,
        (Rank::Title(_), Rank::Count(_)) => false,
    }
}

/// Nothing is followed by what has to come before it.
pub open spec fn is_sorted(list: Seq<Rank>) -> bool {
    forall|i: int, j: int| 0 <= i < j < list.len() ==> !precedes(list[j], list[i])
}

/// Compares two sort keys.
pub fn compare(a: &SortKey, b: &SortKey) -> (o: Ordering)
    ensures
        o is Less <==> precedes(a@, b@),
        o is Greater <==> precedes(b@, a@),
{
    match (a, b) {
        (SortKey::Count(x), SortKey::Count(y)) => descending(*x, *y),
        (SortKey::Title(x), SortKey::Title(y)) => text_order(x.as_str(), y.as_str()),
        (SortKey::Count(_), SortKey::Title(_)) => Ordering::Less,
        (SortKey::Title(_), SortKey::Count(_)) => Ordering::Greater,
    }
}

/// Sorts the positions of the keys with `Itertools::sorted_unstable_by`,
/// comparing by `compare`: every position comes out once, and no key is
/// followed by one that has to come before it. Which of two keys comes first
/// where neither has to is left open.
#[verifier::external_body]
fn sorted_order(keys: &Vec<SortKey>) -> (order: Vec<usize>)
    ensures
        is_permutation(order@, keys@.len()),
        is_sorted(arranged(ranks(keys@), order@)),
{
    (0..keys.len()).sorted_unstable_by(|i, j| compare(&keys[*i], &keys[*j])).collect_vec()
}

/// The order of the counts from the largest to the smallest. Which of two
/// equal counts comes first is left open.
pub fn order_by_count(counts: &Vec<u64>) -> (order: Vec<usize>)
    ensures
        is_permutation(order@, counts@.len()),
        is_descending(arranged(counts@, order@)),
{
    let mut keys: Vec<SortKey> = Vec::new();
    let mut i: usize = 0;
    while i < counts.len()
        invariant
            i <= counts.len(),
            keys@.len() == i,
            forall|k: int| 0 <= k < i ==> (#[trigger] keys@[k])@ == Rank::Count(counts@[k]),
        decreases counts.len() - i,
    {
        keys.push(SortKey::Count(counts[i]));
        i += 1;
    }
    let order = sorted_order(&keys);
    proof {
        let sorted = arranged(ranks(keys@), order@);
        let moved = arranged(counts@, order@);
        assert forall|a: int, b: int| 0 <= a < b < moved.len() implies moved[a] >= moved[b] by {
            assert(!precedes(sorted[b], sorted[a]));
            assert(sorted[a] == Rank::Count(moved[a]));
            assert(sorted[b] == Rank::Count(moved[b]));
        }
    }
    order
}

/// The order of the texts from the lexicographically smallest to the
/// largest. Which of two equal texts comes first is left open.
pub fn order_by_text(list: &Vec<String>) -> (order: Vec<usize>)
    ensures
        is_permutation(order@, list@.len()),
        is_ascending(arranged(texts(list@), order@)),
{
    let mut keys: Vec<SortKey> = Vec::new();
    let mut i: usize = 0;
    while i < list.len()
        invariant
            i <= list.len(),
            keys@.len() == i,
            forall|k: int| 0 <= k < i ==> (#[trigger] keys@[k])@ == Rank::Title(list@[k]@),
        decreases list.len() - i,
    {
        keys.push(SortKey::Title(list[i].clone()));
        i += 1;
    }
    let order = sorted_order(&keys);
    proof {
        let sorted = arranged(ranks(keys@), order@);
        let moved = arranged(texts(list@), order@);
        assert forall|a: int, b: int| 0 <= a < b < moved.len() implies !text_lt(
            moved[b],
            moved[a],
        ) by {
            assert(!precedes(sorted[b], sorted[a]));
            assert(sorted[a] == Rank::Title(moved[a]));
            assert(sorted[b] == Rank::Title(moved[b]));
        }
    }
    order
}

} // verus!
