//! Collecting the statistics of a batch of compressed files: in which order
//! they are worked on, what is done with each, what is kept of it, and which
//! positions are to be shown as progress. The reading and writing of files
//! and the showing are left to the caller, who reports what came of each
//! file and is told what to show.

use crate::codec::bz2_decoded;
use crate::container::{read_file_statistic, statistic_of};
use crate::discover::{sources, FileInfo, Source};
use crate::order::{
    arranged, is_descending, is_permutation, lemma_sum_arranged, lemma_sum_prefix, order_by_count,
    sum,
};
use crate::paths::{base_name, base_name_of, stem, stem_of};
use crate::stat::{archives, Archive, Statistic};
use vstd::prelude::*;

verus! {

/// What is to be done with a compressed file.
pub enum Task {
    /// Nothing: the file is passed over.
    Skip,
    /// Its decompressed form lies at this path already: read it from there.
    Reuse(String),
    /// Decompress it and write the result to this path.
    Unpack(String),
}

/// The mathematical value of a `Task`.
pub enum Step {
    Skip,
    Reuse(Seq<char>),
    Unpack(Seq<char>),
}

impl View for Task {
    type V = Step;

    open spec fn view(&self) -> Step {
        match self {
            Task::Skip => Step::Skip,
            Task::Reuse(target) => Step::Reuse(target@),
            Task::Unpack(target) => Step::Unpack(target@),
        }
    }
}

/// What came of a compressed file.
pub enum Outcome {
    /// It could not be opened or decompressed, or its decompressed form could
    /// not be written.
    Dropped,
    /// Its decompressed form lies on disk, found there or written now; with
    /// the bytes of that container, where they could be read.
    Ready(Option<Vec<u8>>),
}

/// The mathematical value of an `Outcome`.
pub enum Event {
    Dropped,
    Ready(Option<Seq<u8>>),
}

impl View for Outcome {
    type V = Event;

    open spec fn view(&self) -> Event {
        match self {
            Outcome::Dropped => Event::Dropped,
            Outcome::Ready(Some(bytes)) => Event::Ready(Some(bytes@)),
            Outcome::Ready(None) => Event::Ready(None),
        }
    }
}

/// The state of a collection: the compressed files, the order in which they
/// are worked on, how many of them are done, the size of all of them, the
/// size of those that are ready, the positions to be shown as progress so
/// far, and the statistics gathered so far.
pub struct Collector {
    files: Vec<FileInfo>,
    order: Vec<usize>,
    done: usize,
    total: u64,
    unpacked: u64,
    shown: Vec<u64>,
    stats: Vec<Statistic>,
}

/// The mathematical value of a `Collector`.
pub struct Run {
    pub files: Seq<Source>,
    pub order: Seq<usize>,
    pub done: nat,
    pub total: u64,
    pub unpacked: u64,
    pub shown: Seq<u64>,
    pub stats: Seq<Archive>,
}

impl View for Collector {
    type V = Run;

    closed spec fn view(&self) -> Run {
        Run {
            files: sources(self.files@),
            order: self.order@,
            done: self.done as nat,
            total: self.total,
            unpacked: self.unpacked,
            shown: self.shown@,
            stats: archives(self.stats@),
        }
    }
}

/// The sizes of a sequence of compressed files, in the same order.
pub open spec fn sizes_in(files: Seq<Source>) -> Seq<u64> {
    Seq::new(files.len(), |i: int| files[i].size)
}

/// What is to be done with a compressed file at `path`: nothing where it
/// cannot be opened or where no target can be named for it, else its target
/// is reused where it exists and written where it does not.
pub open spec fn planned(path: Seq<char>, opens: bool, cached: bool) -> Step {
    match stem_of(path) {
        Some(target) if opens => if cached {
            Step::Reuse(target)
        } else {
            Step::Unpack(target)
        },
        _ => Step::Skip,
    }
}

/// The statistic that an outcome adds for the compressed file at `path`: that
/// of the container, under the name of the target, where the outcome brings
/// its bytes.
pub open spec fn added(path: Seq<char>, outcome: Event) -> Option<Archive> {
    match (stem_of(path), outcome) {
        (Some(target), Event::Ready(Some(bytes))) => statistic_of(base_name_of(target), bytes),
        _ => None,
    }
}

impl Run {
    /// The sizes of the compressed files in the order in which they are
    /// worked on.
    pub open spec fn schedule(self) -> Seq<u64> {
        arranged(sizes_in(self.files), self.order)
    }

    /// The order takes each file once, largest first; the total is the size
    /// of all files; what is ready is part of what is done; the positions to
    /// be shown start at zero, never fall, and end at what is ready; no more
    /// statistics are kept than files are done; and each statistic records
    /// the sum of the sizes of its entries.
    pub open spec fn wf(self) -> bool {
        &&& is_permutation(self.order, self.files.len())
        &&& is_descending(self.schedule())
        &&& self.done <= self.files.len()
        &&& self.total == sum(sizes_in(self.files))
        &&& self.unpacked <= sum(self.schedule().take(self.done as int))
        &&& self.shown.len() > 0
        &&& self.shown[0] == 0
        &&& self.shown.last() == self.unpacked
        &&& forall|i: int, j: int| 0 <= i <= j < self.shown.len() ==> self.shown[i] <= self.shown[j]
        &&& self.stats.len() <= self.done
        &&& forall|i: int| 0 <= i < self.stats.len() ==> (#[trigger] self.stats[i]).wf()
    }

    /// The position of the file to work on next; `None` when all are done.
    pub open spec fn current(self) -> Option<usize> {
        if self.done < self.files.len() {
            Some(self.order[self.done as int])
        } else {
            None
        }
    }

    /// The position to be shown after the outcome of the current file: where
    /// the file is ready, what was ready before and the size of the file,
    /// whether its target was found or written; and none where the file was
    /// dropped or all files are done.
    pub open spec fn report(self, outcome: Event) -> Option<u64> {
        match self.current() {
            Some(at) if outcome is Ready => Some(
                (self.unpacked + self.files[at as int].size) as u64,
            ),
            _ => None,
        }
    }

    /// The state after the outcome of the current file: the file is done;
    /// where it is ready, its size counts as unpacked and the new position is
    /// to be shown; and the statistic it adds, if any, is kept. When all
    /// files are done the state stays as it is.
    pub open spec fn advance(self, outcome: Event) -> Run {
        match self.current() {
            Some(at) => {
                let file = self.files[at as int];
                Run {
                    done: self.done + 1,
                    unpacked: match self.report(outcome) {
                        Some(position) => position,
                        None => self.unpacked,
                    },
                    shown: match self.report(outcome) {
                        Some(position) => self.shown.push(position),
                        None => self.shown,
                    },
                    stats: match added(file.path, outcome) {
                        Some(archive) => self.stats.push(archive),
                        None => self.stats,
                    },
                    ..self
                }
            },
            None => self,
        }
    }
}

/// A target that was found leaves the collection in the same state as one
/// that was written now, where both hold the same bytes: the decompressed
/// form of the compressed file.
pub proof fn lemma_found_as_written(run: Run, compressed: Seq<u8>, found: Seq<u8>)
    requires
        bz2_decoded(compressed) == Some(found),
    ensures
        run.advance(Event::Ready(Some(found))) == run.advance(
            Event::Ready(bz2_decoded(compressed)),
        ),
{
}

/// The collection never holds more statistics than files are done, nor
/// counts more bytes as unpacked than the files hold in all; and each step
/// keeps what was gathered before.
pub proof fn lemma_advance(run: Run, outcome: Event)
    requires
        run.wf(),
    ensures
        run.advance(outcome).wf(),
        run.advance(outcome).stats.len() <= run.advance(outcome).done <= run.files.len(),
        run.advance(outcome).unpacked <= run.total,
        run.unpacked <= run.advance(outcome).unpacked,
        run.stats.is_prefix_of(run.advance(outcome).stats),
{
    let schedule = run.schedule();
    lemma_sum_arranged(sizes_in(run.files), run.order);
    lemma_sum_prefix(schedule, run.done as int);
    if run.done < run.files.len() {
        let next = run.done as int + 1;
        assert(schedule.take(next).drop_last() == schedule.take(run.done as int));
        lemma_sum_prefix(schedule, next);
    }
}

/// The paths of a sequence of compressed files, in the same order.
pub open spec fn paths_in(files: Seq<Source>) -> Seq<Seq<char>> {
    Seq::new(files.len(), |i: int| files[i].path)
}

/// The statistics that a sequence of outcomes adds, the first outcome being
/// that of the file at the first path, and so on.
pub open spec fn gathered(paths: Seq<Seq<char>>, outcomes: Seq<Event>) -> Seq<Archive>
    decreases outcomes.len(),
{
    if outcomes.len() == 0 {
        Seq::empty()
    } else {
        let head = gathered(paths, outcomes.drop_last());
        match added(paths[outcomes.len() - 1], outcomes.last()) {
            Some(archive) => head.push(archive),
            None => head,
        }
    }
}

/// What comes of a compressed file that is decompressed now: it is ready,
/// with the decompressed bytes, where these can be decoded and written, and
/// dropped where not.
pub open spec fn event_unpacked(compressed: Seq<u8>, written: bool) -> Event {
    match bz2_decoded(compressed) {
        Some(bytes) if written => Event::Ready(Some(bytes)),
        _ => Event::Dropped,
    }
}

/// What comes of a compressed file whose target is found with these bytes.
pub open spec fn event_reused(found: Seq<u8>) -> Event {
    Event::Ready(Some(found))
}

impl Run {
    /// The state after the outcomes of the next files, one after the other.
    pub open spec fn after(self, outcomes: Seq<Event>) -> Run
        decreases outcomes.len(),
    {
        if outcomes.len() == 0 {
            self
        } else {
            self.after(outcomes.drop_last()).advance(outcomes.last())
        }
    }

    /// The paths of the files that are not done, in the order in which they
    /// are worked on.
    pub open spec fn pending(self) -> Seq<Seq<char>> {
        arranged(paths_in(self.files), self.order).skip(self.done as int)
    }
}

/// A run of outcomes leaves a state that can be reached, with as many more
/// files done; it keeps the positions shown and the statistics gathered
/// before, and adds to the statistics what the outcomes add for the files in
/// the order in which they are worked on.
pub proof fn lemma_after(run: Run, outcomes: Seq<Event>)
    requires
        run.wf(),
        run.done + outcomes.len() <= run.files.len(),
    ensures
        run.after(outcomes).wf(),
        run.after(outcomes).files == run.files,
        run.after(outcomes).order == run.order,
        run.after(outcomes).total == run.total,
        run.after(outcomes).done == run.done + outcomes.len(),
        run.after(outcomes).stats == run.stats + gathered(run.pending(), outcomes),
        run.shown.is_prefix_of(run.after(outcomes).shown),
        run.after(outcomes).unpacked <= run.total,
    decreases outcomes.len(),
{
    if outcomes.len() == 0 {
        assert(run.stats + gathered(run.pending(), outcomes) == run.stats);
        lemma_sum_arranged(sizes_in(run.files), run.order);
        lemma_sum_prefix(run.schedule(), run.done as int);
    } else {
        let before = run.after(outcomes.drop_last());
        lemma_after(run, outcomes.drop_last());
        lemma_advance(before, outcomes.last());
        let at = before.order[before.done as int];
        assert(run.pending()[outcomes.len() - 1] == before.files[at as int].path);
        let head = gathered(run.pending(), outcomes.drop_last());
        match added(before.files[at as int].path, outcomes.last()) {
            Some(archive) => {
                assert((run.stats + head).push(archive) == run.stats + head.push(archive));
            },
            None => {},
        }
    }
}

/// Where every file so far is ready, found or written alike, the position
/// shown last is the size of these files; and after the last file it is the
/// size of all.
pub proof fn lemma_all_ready(run: Run, outcomes: Seq<Event>)
    requires
        run.wf(),
        run.done == 0,
        run.unpacked == 0,
        outcomes.len() <= run.files.len(),
        forall|i: int| 0 <= i < outcomes.len() ==> #[trigger] outcomes[i] is Ready,
    ensures
        run.after(outcomes).unpacked == sum(run.schedule().take(outcomes.len() as int)),
        run.after(outcomes).shown.last() == run.after(outcomes).unpacked,
        outcomes.len() == run.files.len() ==> run.after(outcomes).unpacked == run.total,
    decreases outcomes.len(),
{
    lemma_after(run, outcomes);
    lemma_sum_arranged(sizes_in(run.files), run.order);
    let schedule = run.schedule();
    if outcomes.len() == 0 {
        assert(schedule.take(0).len() == 0);
    } else {
        let rest = outcomes.drop_last();
        lemma_all_ready(run, rest);
        lemma_after(run, rest);
        let next = outcomes.len() as int;
        assert(schedule.take(next).drop_last() == schedule.take(next - 1));
        lemma_sum_prefix(schedule, next);
        assert(outcomes[next - 1] is Ready);
    }
    assert(schedule.take(schedule.len() as int) == schedule);
}

/// What the outcomes add depends on the paths of the files they belong to
/// and on no others.
pub proof fn lemma_gathered_paths(
    paths: Seq<Seq<char>>,
    others: Seq<Seq<char>>,
    outcomes: Seq<Event>,
)
    requires
        outcomes.len() <= paths.len(),
        outcomes.len() <= others.len(),
        forall|i: int| 0 <= i < outcomes.len() ==> paths[i] == others[i],
    ensures
        gathered(paths, outcomes) == gathered(others, outcomes),
    decreases outcomes.len(),
{
    if outcomes.len() > 0 {
        lemma_gathered_paths(paths, others, outcomes.drop_last());
    }
}

/// A file that adds no statistic, as one that could not be opened, leaves
/// the statistics as they are without it: those of the other files, each
/// unchanged, in the same order.
pub proof fn lemma_dropped_file_is_absent(paths: Seq<Seq<char>>, outcomes: Seq<Event>, at: int)
    requires
        outcomes.len() <= paths.len(),
        0 <= at < outcomes.len(),
        added(paths[at], outcomes[at]) is None,
    ensures
        gathered(paths, outcomes) == gathered(paths.remove(at), outcomes.remove(at)),
    decreases outcomes.len(),
{
    let rest = outcomes.drop_last();
    if at == outcomes.len() - 1 {
        assert(outcomes.remove(at) == rest);
        lemma_gathered_paths(paths, paths.remove(at), rest);
    } else {
        lemma_dropped_file_is_absent(paths, rest, at);
        assert(outcomes.remove(at).drop_last() == rest.remove(at));
        assert(outcomes.remove(at).last() == outcomes.last());
        assert(paths.remove(at)[outcomes.len() - 2] == paths[outcomes.len() - 1]);
    }
}

/// A second run over the same files ends in the same state as the first,
/// where the first decompressed every file anew and the second finds the
/// targets that the first wrote, with the bytes it wrote, and meets again
/// what the first could not decode or write.
pub proof fn lemma_second_run(
    run: Run,
    compressed: Seq<Seq<u8>>,
    written: Seq<bool>,
    first: Seq<Event>,
    second: Seq<Event>,
)
    requires
        first.len() == second.len() == compressed.len() == written.len(),
        forall|i: int|
            0 <= i < first.len() ==> #[trigger] first[i] == event_unpacked(
                compressed[i],
                written[i],
            ),
        forall|i: int|
            0 <= i < second.len() ==> #[trigger] second[i] == match bz2_decoded(compressed[i]) {
                Some(bytes) if written[i] => event_reused(bytes),
                _ => event_unpacked(compressed[i], written[i]),
            },
    ensures
        run.after(second) == run.after(first),
{
    assert(first =~= second);
}

/// The sizes of the files.
fn sizes(files: &Vec<FileInfo>) -> (list: Vec<u64>)
    ensures
        list@ == sizes_in(sources(files@)),
{
    let mut list: Vec<u64> = Vec::new();
    let mut i: usize = 0;
    while i < files.len()
        invariant
            i <= files.len(),
            list@ == sizes_in(sources(files@)).take(i as int),
        decreases files.len() - i,
    {
        list.push(files[i].size);
        i += 1;
    }
    list
}

/// Adds up the numbers; `None` when the sum does not fit in `u64`.
fn checked_sum(values: &Vec<u64>) -> (r: Option<u64>)
    ensures
        match r {
            Some(total) => total == sum(values@),
            None => sum(values@) > u64::MAX,
        },
{
    let mut total: u64 = 0;
    let mut i: usize = 0;
    while i < values.len()
        invariant
            i <= values.len(),
            total == sum(values@.take(i as int)),
        decreases values.len() - i,
    {
        proof {
            assert(values@.take(i + 1).drop_last() == values@.take(i as int));
            lemma_sum_prefix(values@, i + 1);
        }
        match total.checked_add(values[i]) {
            Some(next) => {
                total = next;
            },
            None => {
                return None;
            },
        }
        i += 1;
    }
    proof {
        assert(values@.take(i as int) == values@);
    }
    Some(total)
}

impl Collector {
    /// A collector is always in a state that `new` and `record` can reach.
    #[verifier::type_invariant]
    closed spec fn reachable(&self) -> bool {
        self@.wf()
    }

    /// Starts the collection over the given files, the largest to be worked
    /// on first. `None` when their sizes add up to more than `u64` holds.
    pub fn new(files: Vec<FileInfo>) -> (r: Option<Collector>)
        ensures
            match r {
                Some(collector) => {
                    &&& collector@.wf()
                    &&& collector@.files == sources(files@)
                    &&& collector@.done == 0
                    &&& collector@.unpacked == 0
                    &&& collector@.shown == seq![0u64]
                    &&& collector@.stats.len() == 0
                },
                None => sum(sizes_in(sources(files@))) > u64::MAX,
            },
    {
        let list = sizes(&files);
        match checked_sum(&list) {
            Some(total) => {
                let order = order_by_count(&list);
                let mut shown: Vec<u64> = Vec::new();
                shown.push(0);
                let collector = Collector {
                    files,
                    order,
                    done: 0,
                    total,
                    unpacked: 0,
                    shown,
                    stats: Vec::new(),
                };
                Some(collector)
            },
            None => None,
        }
    }

    /// The compressed files, in the order in which they were given.
    pub fn files(&self) -> (files: &Vec<FileInfo>)
        ensures
            sources(files@) == self@.files,
    {
        &self.files
    }

    /// The size of all compressed files.
    pub fn total(&self) -> (bytes: u64)
        ensures
            bytes == self@.total,
            self@.wf(),
    {
        proof {
            use_type_invariant(self);
        }
        self.total
    }

    /// The size of the compressed files that are ready.
    pub fn unpacked(&self) -> (bytes: u64)
        ensures
            bytes == self@.unpacked,
    {
        self.unpacked
    }

    /// The positions to be shown as progress, from the first, which is
    /// zero, to the last.
    pub fn shown(&self) -> (positions: &Vec<u64>)
        ensures
            positions@ == self@.shown,
    {
        &self.shown
    }

    /// The number of compressed files that are done.
    pub fn done(&self) -> (count: usize)
        ensures
            count == self@.done,
    {
        self.done
    }

    /// The statistics gathered so far.
    pub fn statistics(&self) -> (stats: &Vec<Statistic>)
        ensures
            archives(stats@) == self@.stats,
    {
        &self.stats
    }

    /// The position, among the files, of the one to work on next; `None`
    /// when all are done.
    pub fn current(&self) -> (r: Option<usize>)
        ensures
            r == self@.current(),
            r matches Some(at) ==> at < self@.files.len(),
    {
        proof {
            use_type_invariant(self);
        }
        if self.done < self.files.len() {
            Some(self.order[self.done])
        } else {
            None
        }
    }

    /// Decides what is to be done with the current file, given whether it
    /// can be opened and whether its target exists.
    pub fn task(&self, opens: bool, cached: bool) -> (task: Task)
        ensures
            task@ == match self@.current() {
                Some(at) => planned(self@.files[at as int].path, opens, cached),
                None => Step::Skip,
            },
    {
        match self.current() {
            Some(at) => match stem(self.files[at].path.as_str()) {
                Some(target) => {
                    if !opens {
                        Task::Skip
                    } else if cached {
                        Task::Reuse(target)
                    } else {
                        Task::Unpack(target)
                    }
                },
                None => Task::Skip,
            },
            None => Task::Skip,
        }
    }

    /// A collection over no files.
    fn idle() -> (collector: Collector)
        ensures
            collector@.files.len() == 0,
    {
        let mut shown: Vec<u64> = Vec::new();
        shown.push(0);
        let order: Vec<usize> = Vec::new();
        proof {
            let none = sources(Seq::<FileInfo>::empty());
            assert(arranged(sizes_in(none), order@) =~= Seq::<u64>::empty());
            assert(sizes_in(none) =~= Seq::<u64>::empty());
        }
        Collector {
            files: Vec::new(),
            order,
            done: 0,
            total: 0,
            unpacked: 0,
            shown,
            stats: Vec::new(),
        }
    }

    /// Takes note of what came of the current file, and gives the position
    /// that is to be shown as progress now, if there is one.
    pub fn record(&mut self, outcome: Outcome) -> (report: Option<u64>)
        ensures
            final(self)@ == old(self)@.advance(outcome@),
            final(self)@.wf(),
            report == old(self)@.report(outcome@),
    {
        proof {
            use_type_invariant(&*self);
        }
        if self.done >= self.files.len() {
            return None;
        }
        let ghost before = self@;
        let mut whole = Collector::idle();
        std::mem::swap(self, &mut whole);
        let Collector { files, order, done, total, unpacked, shown, stats } = whole;
        let mut shown = shown;
        let mut stats = stats;
        let at = order[done];
        proof {
            let schedule = before.schedule();
            assert(schedule.take(done + 1).drop_last() == schedule.take(done as int));
            assert(schedule.take(done + 1).last() == files@[at as int].size);
            lemma_sum_prefix(schedule, done + 1);
            lemma_sum_arranged(sizes_in(before.files), before.order);
        }
        match outcome {
            Outcome::Dropped => {
                *self = Collector { files, order, done: done + 1, total, unpacked, shown, stats };
                None
            },
            Outcome::Ready(container) => {
                let position = unpacked + files[at].size;
                shown.push(position);
                match (stem(files[at].path.as_str()), container) {
                    (Some(target), Some(bytes)) => {
                        let name = base_name(target.as_str());
                        match read_file_statistic(name.as_str(), bytes.as_slice()) {
                            Some(stat) => {
                                let ghost kept = stats@;
                                stats.push(stat);
                                assert(archives(stats@) == archives(kept).push(stat@));
                            },
                            None => {},
                        }
                    },
                    _ => {},
                }
                *self = Collector {
                    files,
                    order,
                    done: done + 1,
                    total,
                    unpacked: position,
                    shown,
                    stats,
                };
                Some(position)
            },
        }
    }

    /// Ends the collection and hands out the statistics gathered: no more
    /// than there were files, each with the sum of the sizes of its entries.
    pub fn finish(self) -> (stats: Vec<Statistic>)
        ensures
            archives(stats@) == self@.stats,
            stats@.len() <= self@.files.len(),
            forall|i: int| 0 <= i < stats@.len() ==> (#[trigger] stats@[i]).wf(),
    {
        proof {
            use_type_invariant(&self);
            assert forall|i: int| 0 <= i < self.stats@.len() implies (#[trigger] self.stats@[i]).wf() by {
                assert(archives(self.stats@)[i].wf());
            }
        }
        self.stats
    }
}

} // verus!
