//! Scans by traversal: what to scan, what was found, which directory is read next, and the graph
//! that grows while a directory tree is walked.

use vstd::hash_map::StringHashMap;
use vstd::prelude::*;

use crate::graph::{added, entry_view, is_directory, kind_bits, parent_view,
    the_first_mark_makes_a_directory, EntryFlags, EntryId, EntryMetadata, EntryView, FileGraph,
    FileGraphBuilder, FileGraphError, FileKind};
use crate::scanner::NtfsScanProgress;
use crate::totals::{directories_among, summary_of};

verus! {

/// What to scan, and how.
#[derive(Debug, Clone)]
pub struct ScanOptions {
    pub root: String,
    pub follow_symlinks: bool,
    /// Whether the allocated size of every file is asked from the system.
    pub precise_allocated: bool,
}

impl ScanOptions {
    /// A scan of `root` that follows no links.
    #[must_use]
    pub fn new(root: &str) -> (r: Self)
        ensures
            r.root@ == root@,
            !r.follow_symlinks,
            !r.precise_allocated,
    {
        ScanOptions { root: root.to_owned(), follow_symlinks: false, precise_allocated: false }
    }
}

/// What a scan found.
#[derive(Debug, Clone, Copy, PartialEq, Eq, Structural)]
pub struct ScanSummary {
    pub entries: u64,
    pub inaccessible: u64,
    pub directories: u64,
    pub files: u64,
}

impl Default for ScanSummary {
    fn default() -> (r: Self)
        ensures
            r == (ScanSummary { entries: 0, inaccessible: 0, directories: 0, files: 0 }),
    {
        ScanSummary { entries: 0, inaccessible: 0, directories: 0, files: 0 }
    }
}

/// Whether a scan goes on.
#[derive(Debug, Clone, Copy, PartialEq, Eq, Structural)]
pub enum ScanControl {
    Continue,
    Cancel,
}

/// Why a scan stopped.
#[derive(Debug, Clone, Copy, PartialEq, Eq, Structural)]
pub enum ScanError {
    /// The scan was cancelled.
    Cancelled,
    /// There are more entries than a graph can number.
    TooManyEntries,
    /// An entry does not fit into the graph.
    Graph(FileGraphError),
}

/// What the progress of a direct scan comes to.
#[must_use]
pub fn scan_summary_from_ntfs_progress(progress: NtfsScanProgress) -> (r: ScanSummary)
    ensures
        r == (ScanSummary {
            entries: progress.entries,
            inaccessible: progress.skipped,
            directories: progress.directories,
            files: progress.files,
        }),
{
    ScanSummary {
        entries: progress.entries,
        inaccessible: progress.skipped,
        directories: progress.directories,
        files: progress.files,
    }
}

/// A scan by traversal: the entries found so far. Whoever walks the directories hands them in.
pub struct FallbackScanner {
    builder: FileGraphBuilder,
    inaccessible: u64,
    directories: u64,
    progress_every: u64,
}

/// What a traversal has found.
pub struct TraversalView {
    pub entries: Seq<EntryView>,
    pub inaccessible: u64,
    pub directories: u64,
    pub progress_every: u64,
}

impl View for FallbackScanner {
    type V = TraversalView;

    closed spec fn view(&self) -> TraversalView {
        TraversalView {
            entries: self.builder@,
            inaccessible: self.inaccessible,
            directories: self.directories,
            progress_every: self.progress_every,
        }
    }
}

/// What a traversal found comes to.
pub open spec fn traversal_summary(t: TraversalView) -> ScanSummary {
    ScanSummary {
        entries: t.entries.len() as u64,
        inaccessible: t.inaccessible,
        directories: t.directories,
        files: (t.entries.len() - t.directories) as u64,
    }
}

impl FallbackScanner {
    /// The entries form a graph, and no more directories were found than entries.
    pub closed spec fn wf(&self) -> bool {
        &&& self.builder.wf()
        &&& self.builder@.len() <= u32::MAX + 1
        &&& self.directories <= self.builder@.len()
    }

    /// A traversal that has found nothing, and reports every `progress_every` entries.
    #[must_use]
    pub fn new(progress_every: u64) -> (r: Self)
        ensures
            r.wf(),
            r@ == (TraversalView {
                entries: Seq::empty(),
                inaccessible: 0,
                directories: 0,
                progress_every,
            }),
    {
        FallbackScanner {
            builder: FileGraphBuilder::new(),
            inaccessible: 0,
            directories: 0,
            progress_every,
        }
    }

    /// Takes down an entry that was found below `parent`.
    pub fn record(&mut self, parent: Option<EntryId>, name: &str, metadata: EntryMetadata) -> (r: Result<
        EntryId,
        ScanError,
    >)
        requires
            old(self).wf(),
        ensures
            final(self).wf(),
            final(self)@.inaccessible == old(self)@.inaccessible,
            final(self)@.progress_every == old(self)@.progress_every,
            r == if old(self)@.entries.len() > u32::MAX {
                Err(ScanError::TooManyEntries)
            } else {
                match added(parent, old(self)@.entries.len()) {
                    Ok(id) => Ok(id),
                    Err(error) => Err(ScanError::Graph(error)),
                }
            },
            r is Ok ==> {
                &&& final(self)@.entries == old(self)@.entries.push(
                    entry_view(parent, name@, metadata),
                )
                &&& final(self)@.directories == old(self)@.directories + if metadata.kind
                    == FileKind::Directory {
                    1int
                } else {
                    0int
                }
            },
            r is Err ==> final(self)@ == old(self)@,
    {
        if self.builder.len() as u64 > 0xffff_ffff {
            return Err(ScanError::TooManyEntries);
        }
        match self.builder.add_entry_with_flags(parent, name, metadata) {
            Ok(id) => {
                match metadata.kind {
                    FileKind::Directory => {
                        self.directories += 1;
                    },
                    _ => {},
                }
                Ok(id)
            },
            Err(error) => Err(ScanError::Graph(error)),
        }
    }

    /// Takes down something that could not be read.
    pub fn record_inaccessible(&mut self)
        requires
            old(self).wf(),
        ensures
            final(self).wf(),
            final(self)@.entries == old(self)@.entries,
            final(self)@.directories == old(self)@.directories,
            final(self)@.progress_every == old(self)@.progress_every,
            final(self)@.inaccessible == if old(self)@.inaccessible == u64::MAX {
                u64::MAX as int
            } else {
                old(self)@.inaccessible + 1
            },
    {
        self.inaccessible = self.inaccessible.saturating_add(1);
    }

    /// What was found so far.
    #[must_use]
    pub fn summary(&self) -> (r: ScanSummary)
        requires
            self.wf(),
        ensures
            r == traversal_summary(self@),
    {
        ScanSummary {
            entries: self.builder.len() as u64,
            inaccessible: self.inaccessible,
            directories: self.directories,
            files: self.builder.len() as u64 - self.directories,
        }
    }

    /// What there is to report, whenever so many more entries were found.
    #[must_use]
    pub fn progress(&self) -> (r: Option<ScanSummary>)
        requires
            self.wf(),
        ensures
            r == if self@.progress_every > 0 && self@.entries.len() % self@.progress_every as nat == 0 {
                Some(traversal_summary(self@))
            } else {
                None
            },
    {
        if self.progress_every > 0 && self.builder.len() as u64 % self.progress_every == 0 {
            Some(self.summary())
        } else {
            None
        }
    }

    /// Whether the traversal goes on after a report was answered.
    pub fn heed(&self, control: ScanControl) -> (r: Result<(), ScanError>)
        ensures
            r == match control {
                ScanControl::Continue => Ok::<(), ScanError>(()),
                ScanControl::Cancel => Err(ScanError::Cancelled),
            },
    {
        match control {
            ScanControl::Continue => Ok(()),
            ScanControl::Cancel => Err(ScanError::Cancelled),
        }
    }

    /// The graph of what was found, and what it comes to.
    #[must_use]
    pub fn finish(self) -> (r: (FileGraph, ScanSummary))
        requires
            self.wf(),
        ensures
            r.0.wf(),
            r.0@ == self@.entries,
            r.1 == traversal_summary(self@),
    {
        let summary = self.summary();
        (self.builder.finish(), summary)
    }
}

// ---------------------------------------------------------------------------------------------
// The walk
// ---------------------------------------------------------------------------------------------

/// What the system tells of something that the walk meets.
#[derive(Debug, Clone, Copy, PartialEq, Eq, Structural)]
pub struct FoundItem {
    pub kind: FileKind,
    pub size: u64,
    /// How much room it takes, where the system was asked and told.
    pub allocated: Option<u64>,
    pub modified_unix: i64,
}

/// Whether the system is asked how much room something takes: only for files, and only where the
/// scan wants it.
#[must_use]
pub fn asks_for_allocated(options: &ScanOptions, kind: FileKind) -> (r: bool)
    ensures
        r == (options.precise_allocated && kind == FileKind::File),
{
    options.precise_allocated && kind == FileKind::File
}

/// The size of what was found: a directory has none of its own.
pub open spec fn found_size(item: FoundItem) -> u64 {
    if item.kind == FileKind::Directory {
        0
    } else {
        item.size
    }
}

/// The entry for something that was found; it takes as much room as it is large where the system did
/// not tell.
pub open spec fn found_entry(parent: Option<u32>, name: Seq<char>, item: FoundItem) -> EntryView {
    EntryView {
        parent,
        name,
        flags: kind_bits(item.kind),
        modified: item.modified_unix,
        size: found_size(item),
        allocated: match item.allocated {
            Some(bytes) => bytes,
            None => found_size(item),
        },
    }
}

proof fn lemma_kind_marks(kind: FileKind)
    ensures
        kind_bits(kind) | 0 == kind_bits(kind),
        is_directory(kind_bits(kind)) == (kind == FileKind::Directory),
{
    assert(1u16 | 0 == 1u16 && 2u16 | 0 == 2u16 && 0u16 | 0 == 0u16 && 1u16 & 1 == 1u16 && 2u16 & 1
        == 0u16 && 0u16 & 1 == 0u16) by (bit_vector);
}

/// What the graph keeps of something that was found; see [`found_entry`].
#[must_use]
pub fn metadata_of_found(item: FoundItem) -> (r: EntryMetadata)
    ensures
        r.kind == item.kind,
        forall|parent: Option<EntryId>, name: Seq<char>| #[trigger]
            entry_view(parent, name, r) == found_entry(parent_view(parent), name, item),
{
    proof {
        lemma_kind_marks(item.kind);
    }
    let size: u64 = if item.kind == FileKind::Directory {
        0
    } else {
        item.size
    };
    EntryMetadata {
        kind: item.kind,
        size,
        allocated: match item.allocated {
            Some(bytes) => bytes,
            None => size,
        },
        modified_unix: item.modified_unix,
        extra_flags: EntryFlags::empty(),
    }
}

/// A walk through a directory tree: what was found, and which directories are still to be read.
/// Whoever reads the directories asks for the next one and hands in what is in it.
pub struct DirectoryWalk {
    scanner: FallbackScanner,
    pending: Vec<EntryId>,
    handed_out: Ghost<Seq<u32>>,
    places: StringHashMap<bool>,
    follow_symlinks: bool,
}

/// What a walk has found, which directories it has handed out and in which order it will hand out
/// the others (the last first), and which places it has entered.
pub struct WalkView {
    pub found: TraversalView,
    pub handed_out: Seq<u32>,
    pub pending: Seq<u32>,
    pub places: Set<Seq<char>>,
    pub follow_symlinks: bool,
}

impl View for DirectoryWalk {
    type V = WalkView;

    closed spec fn view(&self) -> WalkView {
        WalkView {
            found: self.scanner@,
            handed_out: self.handed_out@,
            pending: Seq::new(self.pending@.len(), |i: int| self.pending@[i].0),
            places: self.places@.dom(),
            follow_symlinks: self.follow_symlinks,
        }
    }
}

/// Whether entry `i` of these is a directory.
pub open spec fn is_directory_at(entries: Seq<EntryView>, i: int) -> bool {
    0 <= i < entries.len() && is_directory(entries[i].flags)
}

/// Whether every directory that was found is handed out or still to be handed out, and only once.
pub open spec fn hands_out_once(w: WalkView) -> bool {
    &&& (w.handed_out + w.pending).no_duplicates()
    &&& forall|id: u32| #[trigger]
        (w.handed_out + w.pending).contains(id) <==> is_directory_at(w.found.entries, id as int)
}

proof fn lemma_one_more(s: Seq<u32>, t: Seq<u32>, last: u32)
    requires
        (s + t).no_duplicates(),
        !(s + t).contains(last),
    ensures
        (s + t.push(last)).no_duplicates(),
        forall|id: u32| #[trigger] (s + t.push(last)).contains(id) == ((s + t).contains(id) || id == last),
{
    let before = s + t;
    let after = s + t.push(last);
    assert(after =~= before.push(last));
    assert forall|i: int, j: int| 0 <= i < after.len() && 0 <= j < after.len() && i != j implies after[i]
        != after[j] by {
        assert(i < before.len() ==> before.contains(after[i]));
        assert(j < before.len() ==> before.contains(after[j]));
    }
    assert forall|id: u32| #[trigger] after.contains(id) == (before.contains(id) || id == last) by {
        if before.contains(id) {
            let k = choose|k: int| 0 <= k < before.len() && before[k] == id;
            assert(after[k] == id);
        }
        assert(after[before.len() as int] == last);
    }
}

proof fn lemma_handed_over(s: Seq<u32>, t: Seq<u32>)
    requires
        t.len() > 0,
        (s + t).no_duplicates(),
    ensures
        (s.push(t.last()) + t.drop_last()).no_duplicates(),
        !s.contains(t.last()),
        forall|id: u32| #[trigger]
            (s.push(t.last()) + t.drop_last()).contains(id) == (s + t).contains(id),
{
    let before = s + t;
    let after = s.push(t.last()) + t.drop_last();
    let n = s.len() as int;
    assert(before.last() == t.last());
    if s.contains(t.last()) {
        let k = choose|k: int| 0 <= k < s.len() && s[k] == t.last();
        assert(before[k] == before[before.len() - 1]);
    }
    assert forall|i: int, j: int| 0 <= i < after.len() && 0 <= j < after.len() && i != j implies after[i]
        != after[j] by {
        let a = if i < n {
            i
        } else if i == n {
            before.len() - 1
        } else {
            i - 1
        };
        let b = if j < n {
            j
        } else if j == n {
            before.len() - 1
        } else {
            j - 1
        };
        assert(after[i] == before[a] && after[j] == before[b] && a != b);
    }
    assert forall|id: u32| #[trigger] after.contains(id) == before.contains(id) by {
        if after.contains(id) {
            let i = choose|i: int| 0 <= i < after.len() && after[i] == id;
            let a = if i < n {
                i
            } else if i == n {
                before.len() - 1
            } else {
                i - 1
            };
            assert(before[a] == id);
        }
        if before.contains(id) {
            let a = choose|a: int| 0 <= a < before.len() && before[a] == id;
            let i = if a < n {
                a
            } else if a == before.len() - 1 {
                n
            } else {
                a + 1
            };
            assert(after[i] == id);
        }
    }
}

/// How many of the first `n` entries have the first mark.
pub open spec fn marked_before(entries: Seq<EntryView>, n: nat) -> nat
    decreases n,
{
    if n == 0 {
        0
    } else {
        marked_before(entries, (n - 1) as nat) + if entries[n - 1].flags % 2 == 1 {
            1nat
        } else {
            0
        }
    }
}

pub proof fn lemma_marked(entries: Seq<EntryView>, n: nat)
    ensures
        directories_among(entries, n) == marked_before(entries, n),
        marked_before(entries, n) <= n,
    decreases n,
{
    if n > 0 {
        lemma_marked(entries, (n - 1) as nat);
        the_first_mark_makes_a_directory(entries[n - 1].flags);
    }
}

proof fn lemma_directories_before(entries: Seq<EntryView>, last: EntryView, n: nat)
    requires
        n <= entries.len(),
    ensures
        directories_among(entries.push(last), n) == directories_among(entries, n),
    decreases n,
{
    if n > 0 {
        lemma_directories_before(entries, last, (n - 1) as nat);
    }
}

impl DirectoryWalk {
    /// What was found forms a graph, and its directories are handed out once.
    pub closed spec fn wf(&self) -> bool {
        &&& self.scanner.wf()
        &&& hands_out_once(self@)
        &&& self@.found.directories == directories_among(
            self@.found.entries,
            self@.found.entries.len(),
        )
    }

    /// What a walk has found comes to as many entries as it has taken down, and every one of them is
    /// counted once: as a directory where it has the first mark, else as a file.
    pub proof fn a_walk_counts_what_it_found(&self)
        requires
            self.wf(),
        ensures
            ({
                let found = self@.found;
                let told = traversal_summary(found);
                &&& told.entries == found.entries.len()
                &&& told.entries == told.files + told.directories
                &&& told.directories == marked_before(found.entries, found.entries.len())
                &&& told.inaccessible == found.inaccessible
            }),
    {
        lemma_marked(self@.found.entries, self@.found.entries.len());
    }

    /// Every directory that a walk has found is among those that it has handed out or will hand out,
    /// and stands there once.
    pub proof fn every_directory_is_handed_out_once(&self)
        requires
            self.wf(),
        ensures
            hands_out_once(self@),
    {
    }

    /// A walk that has found what it starts from, and reports every `progress_every` entries.
    pub fn start(options: &ScanOptions, progress_every: u64, item: FoundItem) -> (r: Result<
        Self,
        ScanError,
    >)
        ensures
            r matches Ok(walk) && walk.wf() && walk@.found == (TraversalView {
                entries: seq![found_entry(None, options.root@, item)],
                inaccessible: 0,
                directories: if item.kind == FileKind::Directory {
                    1
                } else {
                    0
                },
                progress_every,
            }) && walk@.handed_out == Seq::<u32>::empty() && walk@.pending == (if item.kind
                == FileKind::Directory {
                seq![0u32]
            } else {
                Seq::<u32>::empty()
            }) && walk@.places == Set::<Seq<char>>::empty() && walk@.follow_symlinks
                == options.follow_symlinks,
    {
        let mut scanner = FallbackScanner::new(progress_every);
        let id = match scanner.record(None, options.root.as_str(), metadata_of_found(item)) {
            Ok(id) => id,
            Err(error) => {
                return Err(error);
            },
        };
        let mut pending: Vec<EntryId> = Vec::new();
        if item.kind == FileKind::Directory {
            pending.push(id);
        }
        proof {
            lemma_kind_marks(item.kind);
        }
        let walk = DirectoryWalk {
            scanner,
            pending,
            handed_out: Ghost(Seq::empty()),
            places: StringHashMap::new(),
            follow_symlinks: options.follow_symlinks,
        };
        proof {
            let w = walk@;
            assert(w.found.entries =~= seq![
                found_entry(None, options.root@, item),
            ]);
            assert(w.places =~= Set::<Seq<char>>::empty());
            lemma_directories_before(
                Seq::empty(),
                found_entry(None, options.root@, item),
                0,
            );
            assert(directories_among(w.found.entries, 0) == 0);
            let all = w.handed_out + w.pending;
            assert(all =~= w.pending);
            if item.kind == FileKind::Directory {
                assert(w.pending =~= seq![0u32]);
                assert(all[0] == 0);
            } else {
                assert(w.pending =~= Seq::<u32>::empty());
            }
        }
        Ok(walk)
    }

    /// The directory to be read next, one that was not handed out before; none where all were.
    pub fn next_directory(&mut self) -> (r: Option<EntryId>)
        requires
            old(self).wf(),
        ensures
            final(self).wf(),
            final(self)@.found == old(self)@.found,
            final(self)@.places == old(self)@.places,
            final(self)@.follow_symlinks == old(self)@.follow_symlinks,
            match r {
                Some(id) => {
                    &&& old(self)@.pending.len() > 0
                    &&& id.0 == old(self)@.pending.last()
                    &&& is_directory_at(old(self)@.found.entries, id.0 as int)
                    &&& !old(self)@.handed_out.contains(id.0)
                    &&& final(self)@.pending == old(self)@.pending.drop_last()
                    &&& final(self)@.handed_out == old(self)@.handed_out.push(id.0)
                },
                None => old(self)@.pending.len() == 0 && final(self)@ == old(self)@ && forall|id: u32|
                    is_directory_at(old(self)@.found.entries, id as int) ==> #[trigger] old(
                        self,
                    )@.handed_out.contains(id),
            },
    {
        let ghost w = self@;
        match self.pending.pop() {
            Some(id) => {
                proof {
                    self.handed_out@ = w.handed_out.push(id.0);
                    lemma_handed_over(w.handed_out, w.pending);
                    assert(self@.pending =~= w.pending.drop_last());
                    assert((w.handed_out + w.pending).contains(id.0)) by {
                        assert((w.handed_out + w.pending)[w.handed_out.len() + w.pending.len() - 1]
                            == id.0);
                    }
                }
                Some(id)
            },
            None => {
                proof {
                    assert(w.handed_out + w.pending =~= w.handed_out);
                    assert forall|id: u32| is_directory_at(w.found.entries, id as int) implies #[trigger]
                        w.handed_out.contains(id) by {
                        assert((w.handed_out + w.pending).contains(id));
                    }
                }
                None
            },
        }
    }

    /// Whether a directory at this place is to be read. Where links are followed, a place is entered
    /// once, however many ways lead to it.
    pub fn enter(&mut self, place: &str) -> (r: bool)
        requires
            old(self).wf(),
        ensures
            final(self).wf(),
            final(self)@.found == old(self)@.found,
            final(self)@.pending == old(self)@.pending,
            final(self)@.handed_out == old(self)@.handed_out,
            final(self)@.follow_symlinks == old(self)@.follow_symlinks,
            r == (!old(self)@.follow_symlinks || !old(self)@.places.contains(place@)),
            final(self)@.places == if old(self)@.follow_symlinks {
                old(self)@.places.insert(place@)
            } else {
                old(self)@.places
            },
    {
        if !self.follow_symlinks {
            return true;
        }
        let ghost places = self.places@.dom();
        let fresh = !self.places.contains_key(place);
        self.places.insert(place.to_owned(), true);
        assert(self.places@.dom() =~= places.insert(place@));
        fresh
    }

    /// Takes down what was found in a directory; a directory found there is read later.
    pub fn found(&mut self, directory: EntryId, name: &str, item: FoundItem) -> (r: Result<
        EntryId,
        ScanError,
    >)
        requires
            old(self).wf(),
        ensures
            final(self).wf(),
            final(self)@.handed_out == old(self)@.handed_out,
            final(self)@.places == old(self)@.places,
            final(self)@.follow_symlinks == old(self)@.follow_symlinks,
            r == if old(self)@.found.entries.len() > u32::MAX {
                Err(ScanError::TooManyEntries)
            } else {
                match added(Some(directory), old(self)@.found.entries.len()) {
                    Ok(id) => Ok(id),
                    Err(error) => Err(ScanError::Graph(error)),
                }
            },
            r matches Ok(id) ==> {
                &&& id.0 == old(self)@.found.entries.len()
                &&& final(self)@.found == (TraversalView {
                    entries: old(self)@.found.entries.push(
                        found_entry(Some(directory.0), name@, item),
                    ),
                    directories: final(self)@.found.directories,
                    ..old(self)@.found
                })
                &&& final(self)@.found.directories == old(self)@.found.directories + if item.kind
                    == FileKind::Directory {
                    1int
                } else {
                    0int
                }
                &&& final(self)@.pending == if item.kind == FileKind::Directory {
                    old(self)@.pending.push(id.0)
                } else {
                    old(self)@.pending
                }
            },
            r is Err ==> final(self)@ == old(self)@,
    {
        let ghost w = self@;
        let id = match self.scanner.record(Some(directory), name, metadata_of_found(item)) {
            Ok(id) => id,
            Err(error) => {
                assert(self@.pending =~= w.pending);
                return Err(error);
            },
        };
        if item.kind == FileKind::Directory {
            self.pending.push(id);
        }
        proof {
            lemma_kind_marks(item.kind);
            lemma_directories_before(
                w.found.entries,
                found_entry(Some(directory.0), name@, item),
                w.found.entries.len(),
            );
            let all = w.handed_out + w.pending;
            assert(!all.contains(id.0));
            if item.kind == FileKind::Directory {
                assert(self@.pending =~= w.pending.push(id.0));
                lemma_one_more(w.handed_out, w.pending, id.0);
            } else {
                assert(self@.pending =~= w.pending);
            }
            assert forall|k: u32| #[trigger]
                (self@.handed_out + self@.pending).contains(k) <==> is_directory_at(
                    self@.found.entries,
                    k as int,
                ) by {
                assert(all.contains(k) <==> is_directory_at(w.found.entries, k as int));
            }
        }
        Ok(id)
    }

    /// Takes down something that could not be read.
    pub fn unreadable(&mut self)
        requires
            old(self).wf(),
        ensures
            final(self).wf(),
            final(self)@ == (WalkView {
                found: TraversalView {
                    inaccessible: if old(self)@.found.inaccessible == u64::MAX {
                        u64::MAX
                    } else {
                        (old(self)@.found.inaccessible + 1) as u64
                    },
                    ..old(self)@.found
                },
                ..old(self)@
            }),
    {
        let ghost w = self@;
        self.scanner.record_inaccessible();
        assert(self@.pending =~= w.pending);
    }

    /// What there is to report, whenever so many more entries were found.
    #[must_use]
    pub fn progress(&self) -> (r: Option<ScanSummary>)
        requires
            self.wf(),
        ensures
            r == if self@.found.progress_every > 0 && self@.found.entries.len()
                % self@.found.progress_every as nat == 0 {
                Some(traversal_summary(self@.found))
            } else {
                None
            },
    {
        self.scanner.progress()
    }

    /// Whether the walk goes on after a report was answered.
    pub fn heed(&self, control: ScanControl) -> (r: Result<(), ScanError>)
        ensures
            r == match control {
                ScanControl::Continue => Ok::<(), ScanError>(()),
                ScanControl::Cancel => Err(ScanError::Cancelled),
            },
    {
        self.scanner.heed(control)
    }

    /// The graph of what was found, and what it comes to.
    #[must_use]
    pub fn finish(self) -> (r: (FileGraph, ScanSummary))
        requires
            self.wf(),
        ensures
            r.0.wf(),
            r.0@ == self@.found.entries,
            r.1 == traversal_summary(self@.found),
            r.1 == (ScanSummary { inaccessible: self@.found.inaccessible, ..summary_of(r.0@) }),
    {
        self.scanner.finish()
    }
}

/// What was found is taken down as it was told: a directory without a size of its own, anything else
/// with its size, and with that much room where the system did not tell how much it takes.
pub proof fn what_was_found_is_taken_down(parent: Option<u32>, name: Seq<char>, item: FoundItem)
    ensures
        ({
            let entry = found_entry(parent, name, item);
            &&& entry.parent == parent
            &&& entry.name == name
            &&& entry.modified == item.modified_unix
            &&& item.kind == FileKind::Directory ==> entry.size == 0
            &&& item.kind != FileKind::Directory ==> entry.size == item.size
            &&& item.allocated matches Some(bytes) ==> entry.allocated == bytes
            &&& item.allocated is None ==> entry.allocated == entry.size
            &&& entry.flags % 2 == 1 <==> item.kind == FileKind::Directory
            &&& entry.flags == 2 <==> item.kind == FileKind::Symlink
            &&& entry.flags <= 2
        }),
{
}

} // verus!
