use archive_stats::order::{
    compare, descending, order_by_count, order_by_text, text_order, SortKey,
};
use std::cmp::Ordering;

#[test]
fn descending_puts_the_larger_first() {
    assert_eq!(descending(2, 1), Ordering::Less);
    assert_eq!(descending(1, 2), Ordering::Greater);
    assert_eq!(descending(5, 5), Ordering::Equal);
    assert_eq!(descending(u64::MAX, 0), Ordering::Less);
}

#[test]
fn text_order_is_lexicographic() {
    assert_eq!(text_order("a", "b"), Ordering::Less);
    assert_eq!(text_order("b", "a"), Ordering::Greater);
    assert_eq!(text_order("abc", "abc"), Ordering::Equal);
    assert_eq!(text_order("", ""), Ordering::Equal);
    assert_eq!(text_order("", "a"), Ordering::Less);
    assert_eq!(text_order("ab", "abc"), Ordering::Less);
    assert_eq!(text_order("abd", "abc"), Ordering::Greater);
    assert_eq!(text_order("B", "a"), Ordering::Less);
    assert_eq!(text_order("10", "9"), Ordering::Less);
}

#[test]
fn text_order_agrees_with_the_order_of_strings() {
    let words = ["", "A", "a", "ab", "abc", "b", "zebra", "Zebra", "é", "z", "日本", "ab/c", "ab.c"];
    for x in words {
        for y in words {
            assert_eq!(text_order(x, y), x.cmp(y));
        }
    }
}

#[test]
fn compare_puts_counts_before_titles() {
    let three = SortKey::Count(3);
    let nine = SortKey::Count(9);
    let alpha = SortKey::Title("alpha".to_string());
    let beta = SortKey::Title("beta".to_string());
    assert_eq!(compare(&nine, &three), Ordering::Less);
    assert_eq!(compare(&three, &nine), Ordering::Greater);
    assert_eq!(compare(&three, &SortKey::Count(3)), Ordering::Equal);
    assert_eq!(compare(&alpha, &beta), Ordering::Less);
    assert_eq!(compare(&beta, &alpha), Ordering::Greater);
    assert_eq!(compare(&alpha, &SortKey::Title("alpha".to_string())), Ordering::Equal);
    assert_eq!(compare(&three, &alpha), Ordering::Less);
    assert_eq!(compare(&alpha, &three), Ordering::Greater);
}

#[test]
fn order_by_count_is_a_descending_permutation() {
    let counts = vec![3u64, 9, 1, 9, 0, 7];
    let order = order_by_count(&counts);
    let moved: Vec<u64> = order.iter().map(|at| counts[*at]).collect();
    assert_eq!(moved, vec![9, 9, 7, 3, 1, 0]);
    let mut seen = order.clone();
    seen.sort();
    assert_eq!(seen, vec![0, 1, 2, 3, 4, 5]);
    assert!(order_by_count(&vec![]).is_empty());
    assert_eq!(order_by_count(&vec![5]), vec![0]);
}

#[test]
fn order_by_text_is_an_ascending_permutation() {
    let titles: Vec<String> =
        ["pear", "Apple", "fig", "apple", "", "figs"].iter().map(|t| t.to_string()).collect();
    let order = order_by_text(&titles);
    assert_eq!(order, vec![4, 1, 3, 2, 5, 0]);
    assert!(order_by_text(&vec![]).is_empty());
}
