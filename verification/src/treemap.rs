//! The largest files, as a treemap shows them.

use vstd::prelude::*;

use crate::graph::{is_directory, raw_ids, the_first_mark_makes_a_directory, EntryFlags, EntryId,
    EntryView, FileGraph};
use crate::ranking::{is_top, nothing_larger_is_left_out, size_that_counts, the_top_is_picked,
    top_entries_by_own_size, OrderKey};
use crate::select::{select, select_picks};

verus! {

/// A file in a treemap.
#[derive(Debug, Clone, PartialEq, Eq)]
pub struct TreemapItem {
    pub id: EntryId,
    pub label: String,
    pub size: u64,
}

/// A file in a treemap.
pub struct ItemView {
    pub id: u32,
    pub label: Seq<char>,
    pub size: u64,
}

impl View for TreemapItem {
    type V = ItemView;

    open spec fn view(&self) -> ItemView {
        ItemView { id: self.id.0, label: self.label@, size: self.size }
    }
}

/// What the items show.
pub open spec fn items_view(items: Seq<TreemapItem>) -> Seq<ItemView> {
    items.map_values(|item: TreemapItem| item@)
}

/// Whether an entry takes room of its own: no directory, and not empty.
pub open spec fn takes_room(g: Seq<EntryView>, i: int) -> bool {
    !is_directory(g[i].flags) && g[i].size > 0
}

/// The files that take room, ascending.
pub open spec fn sized_files(g: Seq<EntryView>) -> Seq<u32> {
    select(g.len(), |i: int| takes_room(g, i))
}

/// The files that take room.
fn sized_file_ids(graph: &FileGraph) -> (r: Vec<EntryId>)
    requires
        graph.wf(),
    ensures
        raw_ids(r@) == sized_files(graph@),
{
    let ghost g = graph@;
    let ghost sized = |i: int| takes_room(g, i);
    proof {
        graph.lemma_wf();
    }
    let n = graph.len();
    let mut r: Vec<EntryId> = Vec::new();
    let mut i: usize = 0;
    assert(raw_ids(r@) =~= Seq::<u32>::empty());
    while i < n
        invariant
            graph.wf(),
            g == graph@,
            n == g.len(),
            n <= u32::MAX + 1,
            i <= n,
            sized == (|i: int| takes_room(g, i)),
            raw_ids(r@) == select(i as nat, sized),
        decreases n - i,
    {
        let ghost shown = r@;
        let id = EntryId(i as u32);
        match (graph.entry(id), graph.stats(id)) {
            (Some(entry), Some(stats)) => if !entry.flags.contains(EntryFlags::DIRECTORY)
                && stats.own_size.bytes() > 0 {
                assert(sized(i as int));
                r.push(id);
                assert(raw_ids(r@) =~= raw_ids(shown).push(i as u32));
            },
            _ => {},
        }
        i += 1;
    }
    r
}

/// Whether the list holds the `limit` largest files that take room, the largest first.
pub open spec fn are_largest_files(g: Seq<EntryView>, limit: nat, ids: Seq<u32>) -> bool {
    is_top(g, OrderKey::OwnSize, sized_files(g), limit as int, ids)
}

/// The largest files that take room, the largest first.
#[must_use]
pub fn largest_files(graph: &FileGraph, limit: usize) -> (r: Vec<EntryId>)
    requires
        graph.wf(),
    ensures
        are_largest_files(graph@, limit as nat, raw_ids(r@)),
        forall|k: int| 0 <= k < r@.len() ==> (#[trigger] r@[k]).0 < graph@.len(),
{
    let ids = sized_file_ids(graph);
    let r = top_entries_by_own_size(graph, &ids, limit);
    proof {
        let g = graph@;
        graph.lemma_wf();
        let all = sized_files(g);
        let top = raw_ids(r@);
        the_top_is_picked(g, OrderKey::OwnSize, all, limit as int, top);
        select_picks(g.len(), |i: int| takes_room(g, i));
        assert forall|k: int| 0 <= k < r@.len() implies (#[trigger] r@[k]).0 < g.len() by {
            assert(top[k] == r@[k].0);
            assert(all.contains(top[k]));
        }
    }
    r
}

/// The item of entry `i`.
pub open spec fn item_of(g: Seq<EntryView>, i: u32) -> ItemView {
    ItemView { id: i, label: g[i as int].name, size: g[i as int].size }
}

/// Whether these items are the largest files: at most `limit`, the largest first.
pub open spec fn are_items(g: Seq<EntryView>, limit: nat, items: Seq<ItemView>) -> bool {
    exists|ids: Seq<u32>| #[trigger]
        are_largest_files(g, limit, ids) && items == ids.map_values(|i: u32| item_of(g, i))
}

/// The largest files as a treemap shows them, the largest first.
#[must_use]
pub fn treemap_items_from_graph(graph: &FileGraph, limit: usize) -> (r: Vec<TreemapItem>)
    requires
        graph.wf(),
    ensures
        are_items(graph@, limit as nat, items_view(r@)),
{
    let ghost g = graph@;
    let ids = largest_files(graph, limit);
    let ghost raw = raw_ids(ids@);
    let ghost shown = raw.map_values(|i: u32| item_of(g, i));
    let mut r: Vec<TreemapItem> = Vec::new();
    let mut k: usize = 0;
    assert(items_view(r@) =~= shown.take(0));
    while k < ids.len()
        invariant
            graph.wf(),
            g == graph@,
            k <= ids@.len(),
            raw == raw_ids(ids@),
            shown == raw.map_values(|i: u32| item_of(g, i)),
            forall|k: int| 0 <= k < ids@.len() ==> (#[trigger] ids@[k]).0 < g.len(),
            items_view(r@) == shown.take(k as int),
        decreases ids@.len() - k,
    {
        let ghost before = r@;
        let id = ids[k];
        assert(raw[k as int] == id.0);
        match (graph.name(id), graph.stats(id)) {
            (Some(name), Some(stats)) => {
                let item = TreemapItem { id, label: name.to_owned(), size: stats.own_size.bytes() };
                r.push(item);
                assert(items_view(r@) =~= items_view(before).push(item@));
            },
            _ => {},
        }
        k += 1;
        assert(shown.take(k as int) =~= shown.take(k - 1).push(shown[k - 1]));
    }
    assert(shown.take(shown.len() as int) =~= shown);
    r
}

/// A file in the list of large files.
#[derive(Debug, Clone, Copy)]
pub struct FileRow {
    pub id: EntryId,
    pub size: u64,
    pub allocated: u64,
}

/// The row of entry `i`.
pub open spec fn file_row_of(g: Seq<EntryView>, i: u32) -> FileRow {
    FileRow { id: EntryId(i), size: g[i as int].size, allocated: g[i as int].allocated }
}

/// Whether these rows are the largest files: at most `limit`, the largest first.
pub open spec fn are_file_rows(g: Seq<EntryView>, limit: nat, rows: Seq<FileRow>) -> bool {
    exists|ids: Seq<u32>| #[trigger]
        are_largest_files(g, limit, ids) && rows == ids.map_values(|i: u32| file_row_of(g, i))
}

/// The largest files, the largest first.
#[must_use]
pub fn file_rows_from_graph(graph: &FileGraph, limit: usize) -> (r: Vec<FileRow>)
    requires
        graph.wf(),
    ensures
        are_file_rows(graph@, limit as nat, r@),
{
    let ghost g = graph@;
    let ids = largest_files(graph, limit);
    let ghost raw = raw_ids(ids@);
    let ghost shown = raw.map_values(|i: u32| file_row_of(g, i));
    let mut r: Vec<FileRow> = Vec::new();
    let mut k: usize = 0;
    assert(r@ =~= shown.take(0));
    while k < ids.len()
        invariant
            graph.wf(),
            g == graph@,
            k <= ids@.len(),
            raw == raw_ids(ids@),
            shown == raw.map_values(|i: u32| file_row_of(g, i)),
            forall|k: int| 0 <= k < ids@.len() ==> (#[trigger] ids@[k]).0 < g.len(),
            r@ == shown.take(k as int),
        decreases ids@.len() - k,
    {
        let id = ids[k];
        assert(raw[k as int] == id.0);
        match graph.stats(id) {
            Some(stats) => {
                r.push(
                    FileRow {
                        id,
                        size: stats.own_size.bytes(),
                        allocated: stats.own_allocated.bytes(),
                    },
                );
            },
            None => {},
        }
        k += 1;
        assert(shown.take(k as int) =~= shown.take(k - 1).push(shown[k - 1]));
    }
    assert(shown.take(shown.len() as int) =~= shown);
    r
}

/// Whether an entry is a file with something in it: without the mark of a directory, and not empty.
pub open spec fn is_filled_file(g: Seq<EntryView>, i: int) -> bool {
    0 <= i < g.len() && g[i].flags % 2 == 0 && g[i].size > 0
}

/// How many of the first `n` entries are files with something in them.
pub open spec fn filled_files(g: Seq<EntryView>, n: nat) -> nat
    decreases n,
{
    if n == 0 {
        0
    } else {
        filled_files(g, (n - 1) as nat) + if is_filled_file(g, n - 1) {
            1nat
        } else {
            0
        }
    }
}

proof fn lemma_filled(g: Seq<EntryView>, i: int)
    requires
        0 <= i < g.len(),
    ensures
        takes_room(g, i) == is_filled_file(g, i),
{
    the_first_mark_makes_a_directory(g[i].flags);
}

proof fn lemma_count_filled(g: Seq<EntryView>, n: nat)
    requires
        n <= g.len(),
    ensures
        select(n, |i: int| takes_room(g, i)).len() == filled_files(g, n),
    decreases n,
{
    if n > 0 {
        lemma_count_filled(g, (n - 1) as nat);
        lemma_filled(g, n - 1);
    }
}

/// The largest files are files with something in them, as many as were asked for or all there are;
/// their sizes never grow down the list, and none that was left out is larger.
pub proof fn the_largest_files_are_listed(g: Seq<EntryView>, limit: nat, ids: Seq<u32>)
    requires
        g.len() <= u32::MAX + 1,
        are_largest_files(g, limit, ids),
    ensures
        ids.len() == if limit < filled_files(g, g.len()) {
            limit
        } else {
            filled_files(g, g.len())
        },
        forall|k: int| 0 <= k < ids.len() ==> is_filled_file(g, #[trigger] ids[k] as int),
        forall|j: int, k: int|
            0 <= j < k < ids.len() ==> g[#[trigger] ids[j] as int].size
                >= g[#[trigger] ids[k] as int].size,
        forall|k: int, i: int| #![trigger ids[k], is_filled_file(g, i)]
            0 <= k < ids.len() && is_filled_file(g, i) && !ids.contains(i as u32)
                ==> g[ids[k] as int].size >= g[i].size,
{
    let sized = |i: int| takes_room(g, i);
    let all = sized_files(g);
    select_picks(g.len(), sized);
    lemma_count_filled(g, g.len());
    assert forall|i: u32| #[trigger] all.contains(i) implies i < g.len() && is_filled_file(
        g,
        i as int,
    ) by {
        let k = choose|k: int| 0 <= k < all.len() && all[k] == i;
        assert(all[k] == i);
        lemma_filled(g, i as int);
    }
    the_top_is_picked(g, OrderKey::OwnSize, all, limit as int, ids);
    nothing_larger_is_left_out(g, all, limit as int, ids, true);
    assert forall|k: int, i: int| #![trigger ids[k], is_filled_file(g, i)]
        0 <= k < ids.len() && is_filled_file(g, i) && !ids.contains(i as u32) implies g[ids[k] as int].size
        >= g[i].size by {
        lemma_filled(g, i);
        assert(sized(i));
        assert(all.contains(i as u32));
        assert(size_that_counts(g, ids[k] as int, true) >= size_that_counts(
            g,
            (i as u32) as int,
            true,
        ));
    }
    assert forall|j: int, k: int| 0 <= j < k < ids.len() implies g[#[trigger] ids[j] as int].size
        >= g[#[trigger] ids[k] as int].size by {
        assert(size_that_counts(g, ids[j] as int, true) >= size_that_counts(
            g,
            ids[k] as int,
            true,
        ));
    }
}

/// An item of a treemap is a file with something in it, under its own name and with its own size; down
/// the list the sizes never grow.
pub proof fn an_item_shows_its_file(g: Seq<EntryView>, limit: nat, items: Seq<ItemView>)
    requires
        g.len() <= u32::MAX + 1,
        are_items(g, limit, items),
    ensures
        items.len() == if limit < filled_files(g, g.len()) {
            limit
        } else {
            filled_files(g, g.len())
        },
        forall|k: int|
            0 <= k < items.len() ==> is_filled_file(g, (#[trigger] items[k]).id as int)
                && items[k].label == g[items[k].id as int].name && items[k].size
                == g[items[k].id as int].size,
        forall|j: int, k: int|
            0 <= j < k < items.len() ==> (#[trigger] items[j]).size >= (#[trigger] items[k]).size,
{
    let ids = choose|ids: Seq<u32>| #[trigger]
        are_largest_files(g, limit, ids) && items == ids.map_values(|i: u32| item_of(g, i));
    the_largest_files_are_listed(g, limit, ids);
    assert forall|k: int| 0 <= k < items.len() implies is_filled_file(
        g,
        (#[trigger] items[k]).id as int,
    ) && items[k].label == g[items[k].id as int].name && items[k].size
        == g[items[k].id as int].size by {
        assert(is_filled_file(g, ids[k] as int));
    }
    assert forall|j: int, k: int| 0 <= j < k < items.len() implies (#[trigger] items[j]).size
        >= (#[trigger] items[k]).size by {
        assert(g[ids[j] as int].size >= g[ids[k] as int].size);
    }
}

/// A row of the list of large files is a file with something in it, with its own numbers; down the
/// list the sizes never grow.
pub proof fn a_file_row_shows_its_file(g: Seq<EntryView>, limit: nat, rows: Seq<FileRow>)
    requires
        g.len() <= u32::MAX + 1,
        are_file_rows(g, limit, rows),
    ensures
        rows.len() == if limit < filled_files(g, g.len()) {
            limit
        } else {
            filled_files(g, g.len())
        },
        forall|k: int|
            0 <= k < rows.len() ==> is_filled_file(g, (#[trigger] rows[k]).id.0 as int)
                && rows[k].size == g[rows[k].id.0 as int].size && rows[k].allocated
                == g[rows[k].id.0 as int].allocated,
        forall|j: int, k: int|
            0 <= j < k < rows.len() ==> (#[trigger] rows[j]).size >= (#[trigger] rows[k]).size,
{
    let ids = choose|ids: Seq<u32>| #[trigger]
        are_largest_files(g, limit, ids) && rows == ids.map_values(|i: u32| file_row_of(g, i));
    the_largest_files_are_listed(g, limit, ids);
    assert forall|k: int| 0 <= k < rows.len() implies is_filled_file(
        g,
        (#[trigger] rows[k]).id.0 as int,
    ) && rows[k].size == g[rows[k].id.0 as int].size && rows[k].allocated
        == g[rows[k].id.0 as int].allocated by {
        assert(is_filled_file(g, ids[k] as int));
    }
    assert forall|j: int, k: int| 0 <= j < k < rows.len() implies (#[trigger] rows[j]).size
        >= (#[trigger] rows[k]).size by {
        assert(g[ids[j] as int].size >= g[ids[k] as int].size);
    }
}

} // verus!
