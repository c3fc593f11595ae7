//! The file graph: every entry of a scan with its parent, and the totals of every subtree.

use vstd::prelude::*;

use crate::aggregate::{lemma_subtree_sum_agrees, subtree_counts, subtree_totals};
use crate::intern::{lookup_keeps_strings_once, StringId, StringInterner, StringTable};
use crate::select::select;
use crate::size::ByteSize;
use crate::winpath::{has_drive, is_plain_name, is_verbatim, join, join_path, lemma_join_plain, parts_at,
    tidied};

verus! {

/// Names an entry of a graph: entries are numbered from zero in the order they were added.
#[derive(Debug, Clone, Copy, PartialEq, Eq, PartialOrd, Ord, Hash, Structural)]
pub struct EntryId(pub u32);

/// What kind of thing an entry is.
#[derive(Debug, Clone, Copy, PartialEq, Eq, Structural)]
pub enum FileKind {
    Directory,
    File,
    Symlink,
    Other,
}

/// A set of marks on an entry, one per bit.
#[derive(Debug, Clone, Copy, PartialEq, Eq, Structural)]
pub struct EntryFlags {
    bits: u16,
}

/// Whether all marks of `mask` are in `bits`.
pub open spec fn has_marks(bits: u16, mask: u16) -> bool {
    bits & mask == mask
}

/// Whether the marks say that the entry is a directory.
pub open spec fn is_directory(bits: u16) -> bool {
    has_marks(bits, EntryFlags::DIRECTORY)
}

impl View for EntryFlags {
    type V = u16;

    closed spec fn view(&self) -> u16 {
        self.bits
    }
}

impl EntryFlags {
    /// The mark of a directory.
    pub const DIRECTORY: u16 = 1;

    /// The mark of a symbolic link.
    pub const SYMLINK: u16 = 2;

    /// The mark of a file with more than one hard link.
    pub const HARD_LINK: u16 = 4;

    /// The mark of an entry that could not be read.
    pub const INACCESSIBLE: u16 = 8;

    /// No marks.
    #[must_use]
    pub fn empty() -> (r: Self)
        ensures
            r@ == 0,
    {
        EntryFlags { bits: 0 }
    }

    /// The marks with these bits, known or not.
    #[must_use]
    pub fn from_bits_retain(bits: u16) -> (r: Self)
        ensures
            r@ == bits,
    {
        EntryFlags { bits }
    }

    /// The bits of the marks.
    #[must_use]
    pub fn bits(self) -> (r: u16)
        ensures
            r == self@,
    {
        self.bits
    }

    /// Whether all marks of `mask` are set.
    #[must_use]
    pub fn contains(self, mask: u16) -> (r: bool)
        ensures
            r == has_marks(self@, mask),
    {
        self.bits & mask == mask
    }

    /// Sets the marks of `mask`.
    pub fn insert(&mut self, mask: u16)
        ensures
            final(self)@ == old(self)@ | mask,
    {
        self.bits = self.bits | mask;
    }

    /// Clears the marks of `mask`.
    pub fn remove(&mut self, mask: u16)
        ensures
            final(self)@ == old(self)@ & !mask,
    {
        self.bits = self.bits & !mask;
    }
}

/// What a scan knows of an entry besides its name and place.
#[derive(Debug, Clone, Copy)]
pub struct EntryMetadata {
    pub kind: FileKind,
    pub size: u64,
    pub allocated: u64,
    pub modified_unix: i64,
    pub extra_flags: EntryFlags,
}

/// The sizes of an entry, alone and with everything below it.
#[derive(Debug, Clone, Copy, PartialEq, Eq, Structural)]
pub struct NodeStats {
    pub own_size: ByteSize,
    pub own_allocated: ByteSize,
    pub total_size: ByteSize,
    pub total_allocated: ByteSize,
    pub descendants: u32,
}

impl Default for NodeStats {
    fn default() -> (r: Self)
        ensures
            r == (NodeStats {
                own_size: ByteSize(0),
                own_allocated: ByteSize(0),
                total_size: ByteSize(0),
                total_allocated: ByteSize(0),
                descendants: 0,
            }),
    {
        NodeStats {
            own_size: ByteSize(0),
            own_allocated: ByteSize(0),
            total_size: ByteSize(0),
            total_allocated: ByteSize(0),
            descendants: 0,
        }
    }
}

/// An entry as the graph keeps it.
#[derive(Debug, Clone, Copy, PartialEq, Eq, Structural)]
pub struct GraphEntry {
    pub id: EntryId,
    pub parent: Option<EntryId>,
    pub name: StringId,
    pub flags: EntryFlags,
    pub modified_unix: i64,
}

/// Why an entry was not added.
#[derive(Debug, Clone, Copy, PartialEq, Eq, Structural)]
pub enum FileGraphError {
    /// The parent is not an entry of the graph.
    InvalidEntry(u32),
    /// The entry would be its own parent.
    SelfParent { child: EntryId },
}

/// The entries of a scan and their totals.
#[derive(Debug, Clone)]
pub struct FileGraph {
    names: StringTable,
    parents: Vec<Option<EntryId>>,
    name_ids: Vec<StringId>,
    flags: Vec<EntryFlags>,
    modified_unix: Vec<i64>,
    own_size: Vec<u64>,
    own_allocated: Vec<u64>,
    total_size: Vec<u64>,
    total_allocated: Vec<u64>,
    descendants: Vec<u32>,
}

// ---------------------------------------------------------------------------------------------
// The model
// ---------------------------------------------------------------------------------------------

/// An entry: where it hangs, and what was said of it when it was added.
pub struct EntryView {
    pub parent: Option<u32>,
    pub name: Seq<char>,
    pub flags: u16,
    pub modified: i64,
    pub size: u64,
    pub allocated: u64,
}

/// Whether every parent was added before its children.
pub open spec fn is_forest(g: Seq<EntryView>) -> bool {
    &&& g.len() <= u32::MAX + 1
    &&& forall|i: int| #![trigger g[i]] 0 <= i < g.len() ==> (g[i].parent matches Some(p) ==> p < i)
}

/// Whether `j` is `i` or lies below it.
pub open spec fn within(g: Seq<EntryView>, j: int, i: int) -> bool
    decreases j,
{
    j == i || (0 <= j < g.len() && match g[j].parent {
        Some(p) => p < j && within(g, p as int, i),
        None => false,
    })
}

/// The sum of `f` over the first `n` entries that are `i` or lie below it.
pub open spec fn subtree_sum(g: Seq<EntryView>, i: int, f: spec_fn(int) -> nat, n: int) -> nat
    decreases n,
{
    if n <= 0 {
        0
    } else {
        subtree_sum(g, i, f, n - 1) + if within(g, n - 1, i) {
            f(n - 1)
        } else {
            0
        }
    }
}

/// `n`, or the largest number that fits where `n` does not.
pub open spec fn capped(n: nat, max: nat) -> nat {
    if n > max {
        max
    } else {
        n
    }
}

/// The size of entry `i` and everything below it.
pub open spec fn total_size(g: Seq<EntryView>, i: int) -> u64 {
    capped(subtree_sum(g, i, |j: int| g[j].size as nat, g.len() as int), u64::MAX as nat) as u64
}

/// The allocated size of entry `i` and everything below it.
pub open spec fn total_allocated(g: Seq<EntryView>, i: int) -> u64 {
    capped(subtree_sum(g, i, |j: int| g[j].allocated as nat, g.len() as int), u64::MAX as nat) as u64
}

/// How many entries lie below entry `i`.
pub open spec fn descendants(g: Seq<EntryView>, i: int) -> u32 {
    capped((subtree_sum(g, i, |j: int| 1, g.len() as int) - 1) as nat, u32::MAX as nat) as u32
}

/// The path of entry `i`: the names on the way from its root, joined.
pub open spec fn path_of(g: Seq<EntryView>, i: int) -> Seq<char>
    decreases i,
{
    if 0 <= i < g.len() {
        match g[i].parent {
            Some(p) => if p < i {
                join_path(path_of(g, p as int), g[i].name)
            } else {
                g[i].name
            },
            None => g[i].name,
        }
    } else {
        Seq::empty()
    }
}

/// The parent as the model has it.
pub open spec fn parent_view(parent: Option<EntryId>) -> Option<u32> {
    match parent {
        Some(p) => Some(p.0),
        None => None,
    }
}

/// The numbers of the entries.
pub open spec fn raw_ids(ids: Seq<EntryId>) -> Seq<u32> {
    ids.map_values(|id: EntryId| id.0)
}

/// The mark that a kind brings.
pub open spec fn kind_bits(kind: FileKind) -> u16 {
    match kind {
        FileKind::Directory => EntryFlags::DIRECTORY,
        FileKind::Symlink => EntryFlags::SYMLINK,
        FileKind::File => 0,
        FileKind::Other => 0,
    }
}

/// The entry that a builder adds for this metadata.
pub open spec fn entry_view(
    parent: Option<EntryId>,
    name: Seq<char>,
    metadata: EntryMetadata,
) -> EntryView {
    EntryView {
        parent: parent_view(parent),
        name,
        flags: kind_bits(metadata.kind) | metadata.extra_flags@,
        modified: metadata.modified_unix,
        size: metadata.size,
        allocated: metadata.allocated,
    }
}

// ---------------------------------------------------------------------------------------------
// Building
// ---------------------------------------------------------------------------------------------

/// Collects the entries of a scan.
pub struct FileGraphBuilder {
    names: StringInterner,
    parents: Vec<Option<EntryId>>,
    name_ids: Vec<StringId>,
    flags: Vec<EntryFlags>,
    modified_unix: Vec<i64>,
    own_size: Vec<u64>,
    own_allocated: Vec<u64>,
}

impl View for FileGraphBuilder {
    type V = Seq<EntryView>;

    closed spec fn view(&self) -> Seq<EntryView> {
        Seq::new(
            self.parents@.len(),
            |i: int|
                EntryView {
                    parent: parent_view(self.parents@[i]),
                    name: self.names@[self.name_ids@[i].0 as int],
                    flags: self.flags@[i]@,
                    modified: self.modified_unix@[i],
                    size: self.own_size@[i],
                    allocated: self.own_allocated@[i],
                },
        )
    }
}

impl FileGraphBuilder {
    /// The columns have the same length, and every entry hangs on an earlier one.
    pub closed spec fn wf(&self) -> bool {
        let n = self.parents@.len();
        &&& self.names.wf()
        &&& self.names@.len() <= n
        &&& self.name_ids@.len() == n
        &&& self.flags@.len() == n
        &&& self.modified_unix@.len() == n
        &&& self.own_size@.len() == n
        &&& self.own_allocated@.len() == n
        &&& forall|i: int| 0 <= i < n ==> (#[trigger] self.name_ids@[i]).0 < self.names@.len()
        &&& !self.names.has_lookup() ==> {
            &&& self.names@.len() == n
            &&& forall|i: int| 0 <= i < n ==> (#[trigger] self.name_ids@[i]).0 == i
        }
        &&& is_forest(self@)
    }

    /// The names that the builder keeps.
    pub closed spec fn kept_names(&self) -> Seq<Seq<char>> {
        self.names@
    }

    /// The numbers of the entries' names among those that are kept.
    pub closed spec fn name_numbers(&self) -> Seq<u32> {
        Seq::new(self.name_ids@.len(), |i: int| self.name_ids@[i].0)
    }

    /// Every entry's name is kept under its number. Where each name is kept once, equal names have one
    /// number; else every entry's name has the number of the entry.
    pub proof fn names_are_numbered(&self)
        requires
            self.wf(),
        ensures
            self.name_numbers().len() == self@.len(),
            forall|i: int|
                0 <= i < self@.len() ==> (#[trigger] self.name_numbers()[i]) < self.kept_names().len()
                    && self.kept_names()[self.name_numbers()[i] as int] == self@[i].name,
            self.keeps_names_once() ==> self.kept_names().no_duplicates(),
            !self.keeps_names_once() ==> forall|i: int|
                0 <= i < self@.len() ==> #[trigger] self.name_numbers()[i] == i,
    {
        assert forall|i: int| 0 <= i < self@.len() implies (#[trigger] self.name_numbers()[i])
            < self.kept_names().len() && self.kept_names()[self.name_numbers()[i] as int]
            == self@[i].name by {
            assert(self.name_numbers()[i] == self.name_ids@[i].0);
        }
        if self.keeps_names_once() {
            let names = self.names@;
            assert forall|i: int, j: int| 0 <= i < names.len() && 0 <= j < names.len() && i
                != j implies names[i] != names[j] by {
                if names[i] == names[j] {
                    lookup_keeps_strings_once(&self.names, i, j);
                }
            }
        } else {
            assert forall|i: int| 0 <= i < self@.len() implies #[trigger] self.name_numbers()[i]
                == i by {
                assert(self.name_numbers()[i] == self.name_ids@[i].0);
            }
        }
    }

    /// Whether the builder keeps equal names once.
    pub closed spec fn keeps_names_once(&self) -> bool {
        self.names.has_lookup()
    }

    /// A builder without entries, which keeps equal names once.
    #[must_use]
    pub fn new() -> (r: Self)
        ensures
            r.wf(),
            r@ == Seq::<EntryView>::empty(),
            r.kept_names() == Seq::<Seq<char>>::empty(),
            r.name_numbers() == Seq::<u32>::empty(),
            r.keeps_names_once(),
    {
        Self::with_names(StringInterner::new())
    }

    /// A builder without entries, which keeps every name it is given.
    #[must_use]
    pub fn without_name_dedup() -> (r: Self)
        ensures
            r.wf(),
            r@ == Seq::<EntryView>::empty(),
            r.kept_names() == Seq::<Seq<char>>::empty(),
            r.name_numbers() == Seq::<u32>::empty(),
            !r.keeps_names_once(),
    {
        Self::with_names(StringInterner::without_lookup())
    }

    fn with_names(names: StringInterner) -> (r: Self)
        requires
            names.wf(),
            names@.len() == 0,
        ensures
            r.wf(),
            r@ == Seq::<EntryView>::empty(),
            r.kept_names() == names@,
            r.name_numbers() == Seq::<u32>::empty(),
            r.keeps_names_once() == names.has_lookup(),
    {
        let r = Self {
            names,
            parents: Vec::new(),
            name_ids: Vec::new(),
            flags: Vec::new(),
            modified_unix: Vec::new(),
            own_size: Vec::new(),
            own_allocated: Vec::new(),
        };
        assert(r@ =~= Seq::<EntryView>::empty());
        assert(r.name_numbers() =~= Seq::<u32>::empty());
        r
    }

    /// How many entries were added.
    #[must_use]
    pub fn len(&self) -> (r: usize)
        ensures
            r == self@.len(),
    {
        self.parents.len()
    }

    /// Adds an entry below `parent` and returns its number.
    pub fn add_entry(
        &mut self,
        parent: Option<EntryId>,
        name: &str,
        kind: FileKind,
        size: u64,
        allocated: u64,
        modified_unix: i64,
    ) -> (r: Result<EntryId, FileGraphError>)
        requires
            old(self).wf(),
            old(self)@.len() <= u32::MAX,
        ensures
            final(self).wf(),
            r == added(parent, old(self)@.len()),
            r is Ok ==> final(self)@ == old(self)@.push(
                EntryView {
                    parent: parent_view(parent),
                    name: name@,
                    flags: kind_bits(kind),
                    modified: modified_unix,
                    size,
                    allocated,
                },
            ),
            r is Err ==> final(self)@ == old(self)@,
            final(self).keeps_names_once() == old(self).keeps_names_once(),
            final(self).kept_names() == if r is Ok {
                kept_with(old(self).kept_names(), old(self).keeps_names_once(), name@)
            } else {
                old(self).kept_names()
            },
            final(self).name_numbers() == if r is Ok {
                old(self).name_numbers().push(
                    number_of_name(
                        old(self).kept_names(),
                        old(self).keeps_names_once(),
                        name@,
                    ) as u32,
                )
            } else {
                old(self).name_numbers()
            },
    {
        let metadata = EntryMetadata {
            kind,
            size,
            allocated,
            modified_unix,
            extra_flags: EntryFlags::empty(),
        };
        proof {
            let bits = kind_bits(kind);
            assert(bits | 0 == bits) by (bit_vector);
        }
        self.add_entry_with_flags(parent, name, metadata)
    }

    /// Adds an entry with further marks below `parent` and returns its number.
    pub fn add_entry_with_flags(
        &mut self,
        parent: Option<EntryId>,
        name: &str,
        metadata: EntryMetadata,
    ) -> (r: Result<EntryId, FileGraphError>)
        requires
            old(self).wf(),
            old(self)@.len() <= u32::MAX,
        ensures
            final(self).wf(),
            r == added(parent, old(self)@.len()),
            r is Ok ==> final(self)@ == old(self)@.push(entry_view(parent, name@, metadata)),
            r is Err ==> final(self)@ == old(self)@,
            final(self).keeps_names_once() == old(self).keeps_names_once(),
            final(self).kept_names() == if r is Ok {
                kept_with(old(self).kept_names(), old(self).keeps_names_once(), name@)
            } else {
                old(self).kept_names()
            },
            final(self).name_numbers() == if r is Ok {
                old(self).name_numbers().push(
                    number_of_name(
                        old(self).kept_names(),
                        old(self).keeps_names_once(),
                        name@,
                    ) as u32,
                )
            } else {
                old(self).name_numbers()
            },
    {
        self.add_entry_with_flags_owned_name(parent, name.to_owned(), metadata)
    }

    /// Like [`add_entry_with_flags`](Self::add_entry_with_flags), for a name that the builder may
    /// keep as it is.
    pub fn add_entry_with_flags_owned_name(
        &mut self,
        parent: Option<EntryId>,
        name: String,
        metadata: EntryMetadata,
    ) -> (r: Result<EntryId, FileGraphError>)
        requires
            old(self).wf(),
            old(self)@.len() <= u32::MAX,
        ensures
            final(self).wf(),
            r == added(parent, old(self)@.len()),
            r is Ok ==> final(self)@ == old(self)@.push(entry_view(parent, name@, metadata)),
            r is Err ==> final(self)@ == old(self)@,
            final(self).keeps_names_once() == old(self).keeps_names_once(),
            final(self).kept_names() == if r is Ok {
                kept_with(old(self).kept_names(), old(self).keeps_names_once(), name@)
            } else {
                old(self).kept_names()
            },
            final(self).name_numbers() == if r is Ok {
                old(self).name_numbers().push(
                    number_of_name(
                        old(self).kept_names(),
                        old(self).keeps_names_once(),
                        name@,
                    ) as u32,
                )
            } else {
                old(self).name_numbers()
            },
    {
        let ghost before = self@;
        let ghost names_before = self.names@;
        let id = EntryId(self.parents.len() as u32);
        if let Some(above) = parent {
            if above == id {
                return Err(FileGraphError::SelfParent { child: id });
            }
            if above.0 as usize >= self.parents.len() {
                return Err(FileGraphError::InvalidEntry(above.0));
            }
        }
        let ghost given = name@;
        let mut flags = metadata.extra_flags;
        match metadata.kind {
            FileKind::Directory => flags.insert(EntryFlags::DIRECTORY),
            FileKind::Symlink => flags.insert(EntryFlags::SYMLINK),
            FileKind::File | FileKind::Other => {},
        }
        proof {
            let extra = metadata.extra_flags@;
            assert(extra | 1 == 1 | extra) by (bit_vector);
            assert(extra | 2 == 2 | extra) by (bit_vector);
            assert(0 | extra == extra) by (bit_vector);
        }
        let name_id = self.names.intern_owned(name);
        assert(self.names@[name_id.0 as int] == given);
        assert(name_id.0 == number_of_name(names_before, self.names.has_lookup(), given)) by {
            if self.names.has_lookup() && names_before.contains(given) {
                lookup_keeps_strings_once(
                    &self.names,
                    name_id.0 as int,
                    names_before.index_of(given),
                );
            }
        }
        let ghost numbers_before = self.name_numbers();
        assert forall|i: int| 0 <= i < names_before.len() implies self.names@[i] == names_before[i] by {}
        self.parents.push(parent);
        self.name_ids.push(name_id);
        self.flags.push(flags);
        self.modified_unix.push(metadata.modified_unix);
        self.own_size.push(metadata.size);
        self.own_allocated.push(metadata.allocated);
        assert(self.name_numbers() =~= numbers_before.push(name_id.0));
        assert(self@ =~= before.push(entry_view(parent, given, metadata)));
        assert(is_forest(self@)) by {
            assert forall|i: int| #![trigger self@[i]] 0 <= i < self@.len() implies (self@[i].parent matches Some(p) ==> p < i) by {
                if i < before.len() {
                    assert(before[i].parent == self@[i].parent);
                }
            }
        }
        Ok(id)
    }

    /// The graph of the entries, with the totals of every subtree.
    #[must_use]
    pub fn finish(self) -> (graph: FileGraph)
        requires
            self.wf(),
        ensures
            graph.wf(),
            graph@ == self@,
            graph.kept_names() == self.kept_names(),
            graph.name_numbers() == self.name_numbers(),
    {
        let ghost g = self@;
        assert forall|i: int| 0 <= i < g.len() implies parent_view(self.parents@[i]) == (
        #[trigger] g[i]).parent by {}
        let sizes_below = subtree_totals(&self.parents, &self.own_size, Ghost(g));
        let allocations_below = subtree_totals(&self.parents, &self.own_allocated, Ghost(g));
        let counts_below = subtree_counts(&self.parents, Ghost(g));
        let ghost sizes = self.own_size@;
        let ghost allocations = self.own_allocated@;
        let graph = FileGraph {
            names: self.names.finish(),
            parents: self.parents,
            name_ids: self.name_ids,
            flags: self.flags,
            modified_unix: self.modified_unix,
            own_size: self.own_size,
            own_allocated: self.own_allocated,
            total_size: sizes_below,
            total_allocated: allocations_below,
            descendants: counts_below,
        };
        proof {
            assert(graph@ =~= g);
            let n = g.len() as int;
            assert forall|i: int| 0 <= i < n implies #[trigger] graph.total_size@[i] == total_size(
                g,
                i,
            ) by {
                lemma_subtree_sum_agrees(
                    g,
                    i,
                    |j: int| sizes[j] as nat,
                    |j: int| g[j].size as nat,
                    n,
                );
            }
            assert forall|i: int| 0 <= i < n implies #[trigger] graph.total_allocated@[i]
                == total_allocated(g, i) by {
                lemma_subtree_sum_agrees(
                    g,
                    i,
                    |j: int| allocations[j] as nat,
                    |j: int| g[j].allocated as nat,
                    n,
                );
            }
        }
        graph
    }
}

/// The names that are kept once another one is given: an equal one is kept again unless each is kept
/// once.
pub open spec fn kept_with(names: Seq<Seq<char>>, once: bool, name: Seq<char>) -> Seq<Seq<char>> {
    if once && names.contains(name) {
        names
    } else {
        names.push(name)
    }
}

/// The number of a name that is given: that of the equal one that is kept already, where each is kept
/// once, else the next.
pub open spec fn number_of_name(names: Seq<Seq<char>>, once: bool, name: Seq<char>) -> int {
    if once && names.contains(name) {
        names.index_of(name)
    } else {
        names.len() as int
    }
}

/// What adding an entry with this parent behind `count` others returns.
pub open spec fn added(parent: Option<EntryId>, count: nat) -> Result<EntryId, FileGraphError> {
    match parent {
        Some(p) => if p.0 == count {
            Err(FileGraphError::SelfParent { child: EntryId(count as u32) })
        } else if p.0 > count {
            Err(FileGraphError::InvalidEntry(p.0))
        } else {
            Ok(EntryId(count as u32))
        },
        None => Ok(EntryId(count as u32)),
    }
}

impl Default for FileGraphBuilder {
    fn default() -> (r: Self)
        ensures
            r.wf(),
            r@ == Seq::<EntryView>::empty(),
            r.kept_names() == Seq::<Seq<char>>::empty(),
            r.name_numbers() == Seq::<u32>::empty(),
            r.keeps_names_once(),
    {
        Self::new()
    }
}

// ---------------------------------------------------------------------------------------------
// Reading
// ---------------------------------------------------------------------------------------------

impl View for FileGraph {
    type V = Seq<EntryView>;

    closed spec fn view(&self) -> Seq<EntryView> {
        Seq::new(
            self.parents@.len(),
            |i: int|
                EntryView {
                    parent: parent_view(self.parents@[i]),
                    name: self.names@[self.name_ids@[i].0 as int],
                    flags: self.flags@[i]@,
                    modified: self.modified_unix@[i],
                    size: self.own_size@[i],
                    allocated: self.own_allocated@[i],
                },
        )
    }
}

impl FileGraph {
    spec fn columns_fit(&self) -> bool {
        let n = self.parents@.len();
        &&& self.names.wf()
        &&& self.name_ids@.len() == n
        &&& self.flags@.len() == n
        &&& self.modified_unix@.len() == n
        &&& self.own_size@.len() == n
        &&& self.own_allocated@.len() == n
        &&& self.total_size@.len() == n
        &&& self.total_allocated@.len() == n
        &&& self.descendants@.len() == n
        &&& forall|i: int| 0 <= i < n ==> (#[trigger] self.name_ids@[i]).0 < self.names@.len()
    }

    spec fn totals_fit(&self) -> bool {
        &&& forall|i: int|
            0 <= i < self@.len() ==> #[trigger] self.total_size@[i] == total_size(self@, i)
        &&& forall|i: int|
            0 <= i < self@.len() ==> #[trigger] self.total_allocated@[i] == total_allocated(self@, i)
        &&& forall|i: int|
            0 <= i < self@.len() ==> #[trigger] self.descendants@[i] == descendants(self@, i)
    }

    /// The names that the graph keeps.
    pub closed spec fn kept_names(&self) -> Seq<Seq<char>> {
        self.names@
    }

    /// The numbers of the entries' names among those that are kept.
    pub closed spec fn name_numbers(&self) -> Seq<u32> {
        Seq::new(self.name_ids@.len(), |i: int| self.name_ids@[i].0)
    }

    /// The columns have the same length, every entry hangs on an earlier one, and the totals are
    /// those of the entries.
    pub closed spec fn wf(&self) -> bool {
        &&& self.columns_fit()
        &&& is_forest(self@)
        &&& self.totals_fit()
    }

    /// How many entries the graph has.
    #[must_use]
    pub fn len(&self) -> (r: usize)
        ensures
            r == self@.len(),
    {
        self.parents.len()
    }

    /// Whether the graph has no entry.
    #[must_use]
    pub fn is_empty(&self) -> (r: bool)
        ensures
            r == (self@.len() == 0),
    {
        self.parents.len() == 0
    }

    /// The entry with the number `id`.
    #[must_use]
    pub fn entry(&self, id: EntryId) -> (r: Option<GraphEntry>)
        requires
            self.wf(),
        ensures
            r is Some == (id.0 < self@.len()),
            r matches Some(e) ==> {
                let v = self@[id.0 as int];
                &&& e.id == id
                &&& parent_view(e.parent) == v.parent
                &&& e.name.0 == self.name_numbers()[id.0 as int]
                &&& e.name.0 < self.kept_names().len()
                &&& self.kept_names()[e.name.0 as int] == v.name
                &&& e.flags@ == v.flags
                &&& e.modified_unix == v.modified
            },
    {
        let idx = id.0 as usize;
        if idx >= self.parents.len() {
            return None;
        }
        Some(
            GraphEntry {
                id,
                parent: self.parents[idx],
                name: self.name_ids[idx],
                flags: self.flags[idx],
                modified_unix: self.modified_unix[idx],
            },
        )
    }

    /// The name of the entry with the number `id`.
    #[must_use]
    pub fn name(&self, id: EntryId) -> (r: Option<&str>)
        requires
            self.wf(),
        ensures
            r is Some == (id.0 < self@.len()),
            r matches Some(s) ==> s@ == self@[id.0 as int].name,
    {
        let idx = id.0 as usize;
        if idx >= self.name_ids.len() {
            return None;
        }
        assert(self.name_ids@[idx as int].0 < self.names@.len());
        self.names.get(self.name_ids[idx])
    }

    /// The sizes of the entry with the number `id`.
    #[must_use]
    pub fn stats(&self, id: EntryId) -> (r: Option<NodeStats>)
        requires
            self.wf(),
        ensures
            r is Some == (id.0 < self@.len()),
            r matches Some(s) ==> s == stats_of(self@, id.0 as int),
    {
        let idx = id.0 as usize;
        if idx >= self.parents.len() {
            return None;
        }
        assert(self.total_size@[idx as int] == total_size(self@, idx as int));
        assert(self.total_allocated@[idx as int] == total_allocated(self@, idx as int));
        assert(self.descendants@[idx as int] == descendants(self@, idx as int));
        Some(
            NodeStats {
                own_size: ByteSize(self.own_size[idx]),
                own_allocated: ByteSize(self.own_allocated[idx]),
                total_size: ByteSize(self.total_size[idx]),
                total_allocated: ByteSize(self.total_allocated[idx]),
                descendants: self.descendants[idx],
            },
        )
    }

    /// The numbers of all entries, ascending.
    #[must_use]
    pub fn ids(&self) -> (r: Vec<EntryId>)
        requires
            self.wf(),
        ensures
            r@ == Seq::new(self@.len(), |i: int| EntryId(i as u32)),
    {
        let mut r: Vec<EntryId> = Vec::new();
        let mut i: usize = 0;
        while i < self.parents.len()
            invariant
                self.wf(),
                i <= self@.len(),
                self.parents@.len() == self@.len(),
                r@ == Seq::new(i as nat, |k: int| EntryId(k as u32)),
            decreases self@.len() - i,
        {
            r.push(EntryId(i as u32));
            i += 1;
        }
        r
    }

    /// The numbers of the entries right below `parent`, ascending.
    #[must_use]
    pub fn children_of(&self, parent: EntryId) -> (r: Vec<EntryId>)
        requires
            self.wf(),
        ensures
            raw_ids(r@) == children(self@, parent.0),
    {
        let ghost hangs = |i: int| self@[i].parent == Some(parent.0);
        let mut r: Vec<EntryId> = Vec::new();
        let mut i: usize = 0;
        assert(raw_ids(r@) =~= Seq::<u32>::empty());
        while i < self.parents.len()
            invariant
                self.wf(),
                i <= self@.len(),
                self.parents@.len() == self@.len(),
                hangs == (|i: int| self@[i].parent == Some(parent.0)),
                raw_ids(r@) == select(i as nat, hangs),
            decreases self@.len() - i,
        {
            let ghost shown = r@;
            let below = match self.parents[i] {
                Some(p) => p == parent,
                None => false,
            };
            assert(below == hangs(i as int));
            if below {
                r.push(EntryId(i as u32));
                assert(raw_ids(r@) =~= raw_ids(shown).push(i as u32));
            }
            i += 1;
        }
        r
    }

    /// The path of the entry with the number `id`.
    #[must_use]
    pub fn reconstruct_path(&self, id: EntryId) -> (r: Option<String>)
        requires
            self.wf(),
        ensures
            r is Some == (id.0 < self@.len()),
            r matches Some(s) ==> s@ == path_of(self@, id.0 as int),
    {
        if id.0 as usize >= self.parents.len() {
            return None;
        }
        let mut chain: Vec<usize> = Vec::new();
        let mut current: usize = id.0 as usize;
        chain.push(current);
        loop
            invariant
                self.wf(),
                current < self@.len(),
                chain@.len() > 0,
                chain@[0] == id.0,
                chain@.last() == current,
                forall|k: int| #![trigger chain@[k]] 0 <= k < chain@.len() ==> chain@[k] < self@.len(),
                forall|k: int|
                    0 <= k < chain@.len() - 1 ==> self@[(#[trigger] chain@[k]) as int].parent == Some(
                        chain@[k + 1] as u32,
                    ),
            ensures
                self@[current as int].parent is None,
            decreases current,
        {
            assert(self@[current as int].parent == parent_view(self.parents@[current as int]));
            match self.parents[current] {
                Some(above) => {
                    current = above.0 as usize;
                    chain.push(current);
                },
                None => {
                    break;
                },
            }
        }
        let mut k: usize = chain.len() - 1;
        let mut path = self.name_at(chain[k]);
        while k > 0
            invariant
                self.wf(),
                k < chain@.len(),
                chain@[0] == id.0,
                forall|k: int| #![trigger chain@[k]] 0 <= k < chain@.len() ==> chain@[k] < self@.len(),
                forall|k: int|
                    0 <= k < chain@.len() - 1 ==> self@[(#[trigger] chain@[k]) as int].parent == Some(
                        chain@[k + 1] as u32,
                    ),
                path@ == path_of(self@, chain@[k as int] as int),
            decreases k,
        {
            k -= 1;
            let name = self.name_at(chain[k]);
            assert(self@[chain@[k as int] as int].parent == Some(chain@[k + 1] as u32));
            path = join(&path, &name);
        }
        Some(path)
    }

    fn name_at(&self, idx: usize) -> (r: String)
        requires
            self.wf(),
            idx < self@.len(),
        ensures
            r@ == self@[idx as int].name,
    {
        match self.name(EntryId(idx as u32)) {
            Some(name) => name.to_owned(),
            None => String::new(),
        }
    }

    /// What a well-formed graph is made of.
    pub proof fn lemma_wf(&self)
        requires
            self.wf(),
        ensures
            is_forest(self@),
            self@.len() <= usize::MAX,
    {
        assert(self@.len() == self.parents.len());
    }
}

/// The numbers of the entries right below `parent`, ascending.
pub open spec fn children(g: Seq<EntryView>, parent: u32) -> Seq<u32> {
    select(g.len(), |i: int| g[i].parent == Some(parent))
}

/// The sizes of entry `i`.
pub open spec fn stats_of(g: Seq<EntryView>, i: int) -> NodeStats {
    NodeStats {
        own_size: ByteSize(g[i].size),
        own_allocated: ByteSize(g[i].allocated),
        total_size: ByteSize(total_size(g, i)),
        total_allocated: ByteSize(total_allocated(g, i)),
        descendants: descendants(g, i),
    }
}

/// The first mark of an entry makes it a directory, whatever other marks it has.
pub proof fn the_first_mark_makes_a_directory(flags: u16)
    ensures
        is_directory(flags) == (flags % 2 == 1),
        !is_directory(flags) == (flags % 2 == 0),
{
    assert((flags & 1 == 1) == (flags % 2 == 1)) by (bit_vector);
    assert(flags % 2 == 0 || flags % 2 == 1) by (bit_vector);
}

/// What was said of an entry when it was added is what the graph keeps of it. A kind that is neither
/// a directory nor a link brings no mark of its own.
pub proof fn what_was_said_is_kept(parent: Option<EntryId>, name: Seq<char>, metadata: EntryMetadata)
    ensures
        ({
            let entry = entry_view(parent, name, metadata);
            let extra = metadata.extra_flags@;
            &&& entry.name == name
            &&& entry.size == metadata.size
            &&& entry.allocated == metadata.allocated
            &&& entry.modified == metadata.modified_unix
            &&& parent is Some == entry.parent is Some
            &&& parent matches Some(p) ==> entry.parent == Some(p.0)
            &&& entry.flags % 2 == 1 <==> metadata.kind == FileKind::Directory || extra % 2 == 1
            &&& (entry.flags / 2) % 2 == 1 <==> metadata.kind == FileKind::Symlink || (extra / 2) % 2 == 1
            &&& entry.flags / 4 == extra / 4
        }),
{
    let extra = metadata.extra_flags@;
    assert((1u16 | extra) % 2 == 1 && (((1u16 | extra) / 2) % 2 == (extra / 2) % 2) && (1u16 | extra) / 4
        == extra / 4) by (bit_vector);
    assert((2u16 | extra) % 2 == extra % 2 && ((2u16 | extra) / 2) % 2 == 1 && (2u16 | extra) / 4 == extra
        / 4) by (bit_vector);
    assert((0u16 | extra) == extra) by (bit_vector);
}

/// The path of an entry is that of the entry it hangs on, and its own name behind a backslash; an
/// entry that hangs on nothing has its name for a path. So it goes for plain names, and paths that can
/// be joined to without a change.
pub proof fn a_path_leads_through_the_entries_above(g: Seq<EntryView>, i: int)
    requires
        is_forest(g),
        0 <= i < g.len(),
        is_plain_name(g[i].name),
    ensures
        g[i].parent is None ==> path_of(g, i) == g[i].name,
        g[i].parent matches Some(p) ==> {
            let path = path_of(g, p as int);
            path.len() > 0 && tidied(path) == path && !parts_at(is_verbatim(path), path.last()) && !(
            path.len() == 2 && has_drive(path)) ==> path_of(g, i) == path.push('\\') + g[i].name
        },
{
    if let Some(p) = g[i].parent {
        let path = path_of(g, p as int);
        if path.len() > 0 && tidied(path) == path && !parts_at(is_verbatim(path), path.last()) && !(
        path.len() == 2 && has_drive(path)) {
            lemma_join_plain(path, g[i].name);
        }
    }
}

} // verus!
