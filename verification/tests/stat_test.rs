use archive_stats::progress::Size;
use archive_stats::stat::{total_size, FileStat, Statistic};

fn file(extension: &str, size: u64) -> FileStat {
    FileStat { extension: extension.to_string(), size }
}

#[test]
fn total_size_adds_up_the_entries() {
    assert_eq!(total_size(&vec![]), Some(0));
    assert_eq!(total_size(&vec![file("rs", 10)]), Some(10));
    assert_eq!(total_size(&vec![file("rs", 10), file("txt", 20), file("", 5)]), Some(35));
}

#[test]
fn total_size_reaches_the_largest_number() {
    assert_eq!(total_size(&vec![file("a", u64::MAX - 1), file("b", 1)]), Some(u64::MAX));
}

#[test]
fn total_size_is_none_on_overflow() {
    assert_eq!(total_size(&vec![file("a", u64::MAX), file("b", 1)]), None);
    assert_eq!(total_size(&vec![file("a", 1), file("b", u64::MAX), file("c", 0)]), None);
}

#[test]
fn statistic_records_the_sum_of_its_entries() {
    let stat = Statistic::new("A".to_string(), vec![file("rs", 10), file("txt", 20)]).unwrap();
    assert_eq!(stat.title, "A");
    assert_eq!(stat.files.len(), 2);
    assert_eq!(stat.size, 30);
    assert_eq!(stat.size, stat.files.iter().map(|f| f.size).sum::<u64>());
}

#[test]
fn statistic_of_no_entries_has_size_zero() {
    let stat = Statistic::new("empty".to_string(), vec![]).unwrap();
    assert_eq!(stat.size, 0);
    assert!(stat.files.is_empty());
}

#[test]
fn statistic_is_refused_when_the_sizes_overflow() {
    assert!(Statistic::new("big".to_string(), vec![file("a", u64::MAX), file("b", 1)]).is_none());
}

#[test]
fn duplicate_keeps_extension_and_size() {
    let copy = file("tar", 7).duplicate();
    assert_eq!(copy.extension, "tar");
    assert_eq!(copy.size, 7);
}

#[test]
fn size_of_entry_and_statistic() {
    assert_eq!(file("rs", 12).size(), 12);
    let stat = Statistic::new("A".to_string(), vec![file("rs", 10), file("txt", 20)]).unwrap();
    assert_eq!(Size::size(&stat), 30);
}
