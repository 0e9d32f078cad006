use archive_stats::discover::{collect_files, name_has_extension, DirItem};

fn item(path: &str, is_file: bool, size: Option<u64>) -> DirItem {
    DirItem { path: path.to_string(), is_file, size }
}

#[test]
fn collect_files_keeps_regular_files_with_the_extension() {
    let list = vec![
        item("data/a.tar.bz2", true, Some(300)),
        item("data/notes.txt", true, Some(10)),
        item("data/b.bz2", true, Some(100)),
    ];
    let files = collect_files(&list, "bz2");
    let found: Vec<(&str, u64)> = files.iter().map(|f| (f.path.as_str(), f.size)).collect();
    assert_eq!(found, vec![("data/a.tar.bz2", 300), ("data/b.bz2", 100)]);
}

#[test]
fn collect_files_passes_over_directories_and_unreadable_items() {
    let list = vec![
        item("data/dir.bz2", false, Some(4096)),
        item("data/gone.bz2", true, None),
        item("data/ok.bz2", true, Some(0)),
    ];
    let files = collect_files(&list, "bz2");
    let found: Vec<(&str, u64)> = files.iter().map(|f| (f.path.as_str(), f.size)).collect();
    assert_eq!(found, vec![("data/ok.bz2", 0)]);
}

#[test]
fn collect_files_of_an_empty_directory_is_empty() {
    assert!(collect_files(&vec![], "bz2").is_empty());
}

#[test]
fn name_has_extension_is_case_sensitive_and_exact() {
    assert!(name_has_extension("a.bz2", "bz2"));
    assert!(name_has_extension("dir/a.tar.bz2", "bz2"));
    assert!(!name_has_extension("a.BZ2", "bz2"));
    assert!(!name_has_extension("a.bz", "bz2"));
    assert!(!name_has_extension("a.bz22", "bz2"));
    assert!(!name_has_extension("bz2", "bz2"));
    assert!(!name_has_extension("a.bz2/b", "bz2"));
}

#[test]
fn name_that_is_only_the_extension_does_not_count() {
    assert!(!name_has_extension(".bz2", "bz2"));
    assert!(!name_has_extension("dir/.bz2", "bz2"));
}
