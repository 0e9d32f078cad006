use archive_stats::category::CategoryTable;
use archive_stats::group::{ByExtension, Count, Filter};
use archive_stats::query::{category_histogram, extension_histogram, histogram};
use archive_stats::stat::{FileStat, Statistic};

fn archive(title: &str, extensions: &[&str]) -> Statistic {
    let files =
        extensions.iter().map(|e| FileStat { extension: e.to_string(), size: 1 }).collect();
    Statistic::new(title.to_string(), files).unwrap()
}

fn pairs(rows: &[Count]) -> Vec<(String, u64)> {
    rows.iter().map(|r| (r.key.clone(), r.count)).collect()
}

fn technologies() -> CategoryTable {
    let mut table = CategoryTable::new();
    table.insert("rs", "Rust");
    table.insert("txt", "Documentation");
    table.insert("md", "Documentation");
    table.insert("py", "Python");
    table.insert("info", "");
    table
}

fn sample() -> Vec<Statistic> {
    vec![
        archive("one", &["rs", "rs", "txt", "py", "rs", "info"]),
        archive("two", &["md", "txt", "py", "", "longextension", "rs"]),
        archive("three", &[]),
    ]
}

#[test]
fn extension_histogram_of_two_archives() {
    let stats = vec![archive("A", &["rs", "txt"]), archive("B", &["rs"])];
    let rows = extension_histogram(&stats, 10, None);
    assert_eq!(pairs(&rows), vec![("rs".to_string(), 2), ("txt".to_string(), 1)]);
}

#[test]
fn category_histogram_of_two_archives() {
    let stats = vec![archive("A", &["rs", "txt"]), archive("B", &["rs"])];
    let rows = category_histogram(&stats, &technologies(), None);
    assert_eq!(pairs(&rows), vec![("Rust".to_string(), 2), ("Documentation".to_string(), 1)]);
}

#[test]
fn extension_histogram_is_sorted_by_descending_count() {
    let rows = extension_histogram(&sample(), 20, None);
    assert_eq!(rows.len(), 7);
    assert_eq!((rows[0].key.as_str(), rows[0].count), ("rs", 4));
    for pair in rows.windows(2) {
        assert!(pair[0].count >= pair[1].count);
    }
    let mut all = pairs(&rows);
    all.sort();
    assert_eq!(
        all,
        vec![
            (String::new(), 1),
            ("info".to_string(), 1),
            ("longextension".to_string(), 1),
            ("md".to_string(), 1),
            ("py".to_string(), 2),
            ("rs".to_string(), 4),
            ("txt".to_string(), 2),
        ]
    );
}

#[test]
fn extension_histogram_leaves_out_long_extensions() {
    let rows = extension_histogram(&sample(), 4, None);
    assert_eq!(rows.len(), 6);
    assert!(rows.iter().all(|r| r.key.len() <= 4));
    assert!(rows.iter().all(|r| r.key != "longextension"));
    let rows = extension_histogram(&sample(), 2, None);
    let mut all = pairs(&rows);
    all.sort();
    assert_eq!(
        all,
        vec![(String::new(), 1), ("md".to_string(), 1), ("py".to_string(), 2), ("rs".to_string(), 4)]
    );
    let rows = extension_histogram(&sample(), 0, None);
    assert_eq!(pairs(&rows), vec![(String::new(), 1)]);
}

#[test]
fn extension_histogram_may_hold_the_empty_extension() {
    let rows = extension_histogram(&[archive("A", &["", "", "rs"])], 10, None);
    assert_eq!(pairs(&rows), vec![(String::new(), 2), ("rs".to_string(), 1)]);
}

#[test]
fn top_cuts_the_histogram_after_the_highest_counts() {
    let rows = extension_histogram(&sample(), 20, Some(1));
    assert_eq!(pairs(&rows), vec![("rs".to_string(), 4)]);
    let rows = extension_histogram(&sample(), 20, Some(3));
    assert_eq!(rows.len(), 3);
    assert_eq!(rows[0].count, 4);
    assert_eq!(rows[1].count, 2);
    assert_eq!(rows[2].count, 2);
    let mut keys: Vec<&str> = rows.iter().map(|r| r.key.as_str()).collect();
    keys.sort();
    assert_eq!(keys, vec!["py", "rs", "txt"]);
}

#[test]
fn top_larger_than_the_number_of_keys_gives_all() {
    assert_eq!(extension_histogram(&sample(), 20, Some(7)).len(), 7);
    assert_eq!(extension_histogram(&sample(), 20, Some(8)).len(), 7);
    assert_eq!(extension_histogram(&sample(), 20, Some(usize::MAX)).len(), 7);
}

#[test]
fn top_zero_gives_no_rows() {
    assert!(extension_histogram(&sample(), 20, Some(0)).is_empty());
    assert!(category_histogram(&sample(), &technologies(), Some(0)).is_empty());
}

#[test]
fn category_histogram_never_holds_the_uncategorized() {
    let rows = category_histogram(&sample(), &technologies(), None);
    assert!(rows.iter().all(|r| !r.key.is_empty()));
    assert_eq!(
        pairs(&rows),
        vec![("Rust".to_string(), 4), ("Documentation".to_string(), 3), ("Python".to_string(), 2)]
    );
}

#[test]
fn category_histogram_with_top() {
    let rows = category_histogram(&sample(), &technologies(), Some(2));
    assert_eq!(pairs(&rows), vec![("Rust".to_string(), 4), ("Documentation".to_string(), 3)]);
}

#[test]
fn category_histogram_with_an_empty_table_is_empty() {
    assert!(category_histogram(&sample(), &CategoryTable::new(), None).is_empty());
}

#[test]
fn histograms_of_no_archives_are_empty() {
    assert!(extension_histogram(&[], 10, None).is_empty());
    assert!(category_histogram(&[], &technologies(), Some(5)).is_empty());
}

#[test]
fn histogram_with_any_key_counts_all_entries() {
    let rows = histogram(&sample(), &ByExtension, Filter::Any, None);
    assert_eq!(rows.iter().map(|r| r.count).sum::<u64>(), 12);
    let rows = histogram(&sample(), &ByExtension, Filter::Named, Some(2));
    assert_eq!(rows.len(), 2);
    assert_eq!(rows[0].key, "rs");
}
