use archive_stats::category::CategoryTable;
use archive_stats::codec::decompress;
use archive_stats::collect::{Collector, Outcome, Task};
use archive_stats::discover::FileInfo;
use archive_stats::progress::Progress;
use archive_stats::query::{category_histogram, extension_histogram};
use archive_stats::report::{listing, search_extension};
use archive_stats::stat::Statistic;
use std::cell::RefCell;
use std::io::Write;

struct Recorder {
    positions: Vec<u64>,
    finished: RefCell<Vec<String>>,
    messages: RefCell<Vec<String>>,
}

impl Recorder {
    fn new() -> Recorder {
        Recorder { positions: vec![], finished: RefCell::new(vec![]), messages: RefCell::new(vec![]) }
    }
}

impl Progress for Recorder {
    fn progress(&mut self, current: u64) {
        self.positions.push(current);
    }

    fn finish(&self, message: &'static str) {
        self.finished.borrow_mut().push(message.to_string());
    }

    fn message(&self, message: String) {
        self.messages.borrow_mut().push(message);
    }
}

fn show(report: Option<u64>, sink: &mut Recorder) {
    if let Some(position) = report {
        sink.progress(position);
    }
}

fn container(entries: &[(&str, usize)]) -> Vec<u8> {
    let mut builder = tar::Builder::new(Vec::new());
    for (path, size) in entries {
        let data = vec![1u8; *size];
        let mut header = tar::Header::new_gnu();
        header.set_size(*size as u64);
        header.set_mode(0o644);
        builder.append_data(&mut header, path, data.as_slice()).unwrap();
    }
    builder.into_inner().unwrap()
}

fn compress(data: &[u8]) -> Vec<u8> {
    let mut encoder = bzip2::write::BzEncoder::new(Vec::new(), bzip2::Compression::default());
    encoder.write_all(data).unwrap();
    encoder.finish().unwrap()
}

fn file(path: &str, size: u64) -> FileInfo {
    FileInfo { path: path.to_string(), size }
}

fn technologies() -> CategoryTable {
    let mut table = CategoryTable::new();
    table.insert("rs", "Rust");
    table.insert("txt", "Documentation");
    table
}

fn pairs(rows: &[archive_stats::group::Count]) -> Vec<(String, u64)> {
    rows.iter().map(|r| (r.key.clone(), r.count)).collect()
}

fn sorted(rows: &[archive_stats::group::Count]) -> Vec<(String, u64)> {
    let mut all = pairs(rows);
    all.sort();
    all
}

fn shape(stats: &[Statistic]) -> Vec<(String, Vec<(String, u64)>, u64)> {
    stats
        .iter()
        .map(|s| {
            (
                s.title.clone(),
                s.files.iter().map(|f| (f.extension.clone(), f.size)).collect(),
                s.size,
            )
        })
        .collect()
}

#[test]
fn collector_works_on_the_largest_file_first() {
    let files = vec![file("d/s.bz2", 100), file("d/l.bz2", 300), file("d/m.bz2", 200)];
    let mut collector = Collector::new(files).unwrap();
    let mut sink = Recorder::new();
    assert_eq!(collector.total(), 600);
    assert_eq!(collector.current(), Some(1));
    show(collector.record(Outcome::Dropped), &mut sink);
    assert_eq!(collector.current(), Some(2));
    show(collector.record(Outcome::Dropped), &mut sink);
    assert_eq!(collector.current(), Some(0));
    show(collector.record(Outcome::Dropped), &mut sink);
    assert_eq!(collector.current(), None);
    assert_eq!(collector.done(), 3);
    assert_eq!(collector.unpacked(), 0);
    assert!(sink.positions.is_empty());
}

#[test]
fn collector_is_refused_when_the_sizes_overflow() {
    assert!(Collector::new(vec![file("a.bz2", u64::MAX), file("b.bz2", 1)]).is_none());
    assert_eq!(Collector::new(vec![file("a.bz2", u64::MAX)]).unwrap().total(), u64::MAX);
}

#[test]
fn collector_of_no_files_is_done_at_once() {
    let mut collector = Collector::new(vec![]).unwrap();
    let mut sink = Recorder::new();
    assert_eq!(collector.current(), None);
    assert!(matches!(collector.task(true, true), Task::Skip));
    show(collector.record(Outcome::Ready(Some(container(&[("a.rs", 1)])))), &mut sink);
    assert_eq!(collector.done(), 0);
    assert_eq!(collector.unpacked(), 0);
    assert!(sink.positions.is_empty());
    assert_eq!(collector.shown(), &vec![0]);
    assert!(collector.finish().is_empty());
    sink.finish("  Completed");
    sink.message(String::new());
    assert_eq!(sink.finished.borrow().len(), 1);
    assert_eq!(sink.messages.borrow().len(), 1);
}

#[test]
fn task_follows_what_was_found_on_disk() {
    let collector = Collector::new(vec![file("data/A.tar.bz2", 300)]).unwrap();
    assert!(matches!(collector.task(false, false), Task::Skip));
    assert!(matches!(collector.task(false, true), Task::Skip));
    match collector.task(true, true) {
        Task::Reuse(target) => assert_eq!(target, "data/A.tar"),
        _ => panic!("the target exists and is reused"),
    }
    match collector.task(true, false) {
        Task::Unpack(target) => assert_eq!(target, "data/A.tar"),
        _ => panic!("the target is missing and is written"),
    }
}

#[test]
fn task_skips_a_file_without_a_target_name() {
    let collector = Collector::new(vec![file("data/.bz2", 1)]).unwrap();
    assert!(matches!(collector.task(true, false), Task::Skip));
    let collector = Collector::new(vec![file("data/plain", 1)]).unwrap();
    assert!(matches!(collector.task(true, true), Task::Skip));
}

#[test]
fn two_archives_from_compressed_bytes_to_reports() {
    let packed_a = compress(&container(&[("a.rs", 10), ("b.txt", 20)]));
    let packed_b = compress(&container(&[("c.rs", 5)]));
    let files = vec![file("dir/B.bz2", 100), file("dir/A.bz2", 300)];
    let mut collector = Collector::new(files).unwrap();
    let mut sink = Recorder::new();
    while let Some(at) = collector.current() {
        let packed = if at == 1 { &packed_a } else { &packed_b };
        let outcome = match collector.task(true, false) {
            Task::Unpack(_) => match decompress(packed) {
                Some(bytes) => Outcome::Ready(Some(bytes)),
                None => Outcome::Dropped,
            },
            _ => Outcome::Dropped,
        };
        show(collector.record(outcome), &mut sink);
    }
    assert_eq!(sink.positions, vec![300, 400]);
    assert_eq!(collector.shown(), &vec![0, 300, 400]);
    assert_eq!(collector.unpacked(), collector.total());
    let stats = collector.finish();
    assert_eq!(stats.len(), 2);
    assert_eq!(stats[0].title, "A");
    assert_eq!(stats[1].title, "B");

    assert_eq!(
        pairs(&extension_histogram(&stats, 10, None)),
        vec![("rs".to_string(), 2), ("txt".to_string(), 1)]
    );
    assert_eq!(
        pairs(&category_histogram(&stats, &technologies(), None)),
        vec![("Rust".to_string(), 2), ("Documentation".to_string(), 1)]
    );
    let found = search_extension(&stats, "rs").unwrap();
    assert_eq!(pairs(&found.rows), vec![("A".to_string(), 1), ("B".to_string(), 1)]);
    assert_eq!(found.total, 2);
    let list = listing(&stats).unwrap();
    assert_eq!(list.total_files, 3);
    assert_eq!(list.total_size, 35);
}

#[test]
fn archive_that_fails_to_open_is_absent_from_every_report() {
    let container_a = container(&[("a.rs", 10), ("b.txt", 20)]);
    let files = vec![file("dir/A.bz2", 300), file("dir/broken.bz2", 100)];
    let mut collector = Collector::new(files).unwrap();
    let mut sink = Recorder::new();
    assert_eq!(collector.current(), Some(0));
    assert!(matches!(collector.task(true, true), Task::Reuse(_)));
    show(collector.record(Outcome::Ready(Some(container_a.clone()))), &mut sink);
    assert_eq!(collector.current(), Some(1));
    assert!(matches!(collector.task(false, false), Task::Skip));
    show(collector.record(Outcome::Dropped), &mut sink);
    assert_eq!(sink.positions, vec![300]);
    assert_eq!(collector.unpacked(), 300);
    assert_eq!(collector.total(), 400);
    let with_broken = collector.finish();

    let mut alone = Collector::new(vec![file("dir/A.bz2", 300)]).unwrap();
    show(alone.record(Outcome::Ready(Some(container_a))), &mut sink);
    let without = alone.finish();

    assert_eq!(shape(&with_broken), shape(&without));
    assert_eq!(with_broken.len(), 1);
    assert_eq!(
        sorted(&extension_histogram(&with_broken, 10, None)),
        sorted(&extension_histogram(&without, 10, None))
    );
    assert_eq!(
        sorted(&extension_histogram(&with_broken, 10, None)),
        vec![("rs".to_string(), 1), ("txt".to_string(), 1)]
    );
    assert_eq!(
        sorted(&category_histogram(&with_broken, &technologies(), None)),
        vec![("Documentation".to_string(), 1), ("Rust".to_string(), 1)]
    );
    let found = search_extension(&with_broken, "rs").unwrap();
    assert_eq!(pairs(&found.rows), vec![("A".to_string(), 1)]);
    assert_eq!(found.total, 1);
    let list = listing(&with_broken).unwrap();
    assert_eq!(list.rows.len(), 1);
    assert_eq!(list.total_files, 2);
    assert_eq!(list.total_size, 30);
}

#[test]
fn failed_decompression_drops_the_archive_and_shows_no_progress() {
    let mut collector = Collector::new(vec![file("dir/bad.bz2", 50)]).unwrap();
    let mut sink = Recorder::new();
    let outcome = match decompress(b"not compressed at all") {
        Some(bytes) => Outcome::Ready(Some(bytes)),
        None => Outcome::Dropped,
    };
    show(collector.record(outcome), &mut sink);
    assert_eq!(collector.unpacked(), 0);
    assert!(sink.positions.is_empty());
    assert!(collector.finish().is_empty());
}

#[test]
fn found_target_counts_like_a_written_one() {
    let bytes = container(&[("a.rs", 10), ("b.txt", 20)]);
    let packed = compress(&bytes);

    let mut fresh = Collector::new(vec![file("dir/A.tar.bz2", 300)]).unwrap();
    let mut fresh_sink = Recorder::new();
    assert!(matches!(fresh.task(true, false), Task::Unpack(_)));
    show(fresh.record(Outcome::Ready(decompress(&packed))), &mut fresh_sink);

    let mut again = Collector::new(vec![file("dir/A.tar.bz2", 300)]).unwrap();
    let mut again_sink = Recorder::new();
    assert!(matches!(again.task(true, true), Task::Reuse(_)));
    show(again.record(Outcome::Ready(Some(bytes))), &mut again_sink);

    assert_eq!(fresh_sink.positions, vec![300]);
    assert_eq!(again_sink.positions, vec![300]);
    assert_eq!(fresh.unpacked(), again.unpacked());
    let first = fresh.finish();
    let second = again.finish();
    assert_eq!(shape(&first), shape(&second));
    assert_eq!(
        shape(&first),
        vec![(
            "A.tar".to_string(),
            vec![("rs".to_string(), 10), ("txt".to_string(), 20)],
            30
        )]
    );
}

#[test]
fn ready_without_readable_container_counts_but_adds_no_statistic() {
    let mut collector = Collector::new(vec![file("dir/A.bz2", 40), file("dir/B.bz2", 2)]).unwrap();
    let mut sink = Recorder::new();
    show(collector.record(Outcome::Ready(None)), &mut sink);
    assert_eq!(collector.unpacked(), 40);
    assert_eq!(collector.done(), 1);
    assert!(collector.statistics().is_empty());
    show(collector.record(Outcome::Ready(Some(b"rubbish".to_vec()))), &mut sink);
    assert_eq!(sink.positions, vec![40, 42]);
    let stats = collector.finish();
    assert_eq!(shape(&stats), vec![("B".to_string(), vec![], 0)]);
}

#[test]
fn statistics_never_outnumber_the_files() {
    let files = vec![file("a.bz2", 3), file("b.bz2", 2), file("c.bz2", 1)];
    let mut collector = Collector::new(files).unwrap();
    let mut sink = Recorder::new();
    show(collector.record(Outcome::Ready(Some(container(&[("x.rs", 1)])))), &mut sink);
    assert!(collector.statistics().len() <= collector.done());
    show(collector.record(Outcome::Dropped), &mut sink);
    assert!(collector.statistics().len() <= collector.done());
    show(collector.record(Outcome::Ready(None)), &mut sink);
    assert!(collector.statistics().len() <= collector.done());
    show(collector.record(Outcome::Ready(Some(container(&[])))), &mut sink);
    assert_eq!(collector.done(), 3);
    assert_eq!(collector.statistics().len(), 1);
    assert_eq!(sink.positions, vec![3, 4]);
}

#[test]
fn positions_to_show_for_two_cache_hits() {
    let a = container(&[("a.rs", 10), ("b.txt", 20)]);
    let b = container(&[("c.rs", 5)]);
    let mut collector = Collector::new(vec![file("d/B.bz2", 100), file("d/A.bz2", 300)]).unwrap();
    assert_eq!(collector.shown(), &vec![0]);
    assert!(matches!(collector.task(true, true), Task::Reuse(_)));
    assert_eq!(collector.record(Outcome::Ready(Some(a))), Some(300));
    assert!(matches!(collector.task(true, true), Task::Reuse(_)));
    assert_eq!(collector.record(Outcome::Ready(Some(b))), Some(400));
    assert_eq!(collector.record(Outcome::Ready(None)), None);
    assert_eq!(collector.shown(), &vec![0, 300, 400]);
    assert_eq!(collector.finish().len(), 2);
}

#[test]
fn dropped_file_gives_no_position_to_show() {
    let mut collector = Collector::new(vec![file("d/A.bz2", 300), file("d/B.bz2", 100)]).unwrap();
    assert_eq!(collector.record(Outcome::Dropped), None);
    assert_eq!(collector.record(Outcome::Ready(None)), Some(100));
    assert_eq!(collector.shown(), &vec![0, 100]);
    assert_eq!(collector.unpacked(), 100);
    assert_eq!(collector.total(), 400);
}
