//! The window's state: the scan that is shown, and the scans that are kept for later.

use std::sync::Arc;

use vstd::prelude::*;

use crate::command::{entry_at_path, find_graph_path};
use crate::graph::{capped, is_forest, path_of, raw_ids, EntryId, EntryView, FileGraph};
use crate::ranking::{is_sorted, EntryOrder, SortKey};
use crate::scan::{marked_before, ScanSummary};
use crate::select::sum_where;
use crate::targets::{normalized_path_key, path_key, str_view, strip_verbatim_prefix, text_view,
    without_verbatim_prefix};
use crate::text::{all_white, chars_of, contains_char, is_white_space_spec, push_text, same_text,
    starts_with_spec, trim, trim_spec, trimming_leaves_the_text};
use crate::totals::{a_summary_counts_every_entry, allocated_of_all, roots_account_for_every_allocation,
    roots_account_for_every_size, size_of_all, summary_from_graph, summary_of, totals_for_roots};
use crate::tree::{all_entries, indexes, is_walkable, lists_children, root_ids, sort_asked, SortSpec,
    TreeIndex};
use crate::viewport::{all_lines, counted, display_name_from_path, in_view, limit_of, normalized_limit,
    query_of, rows_of, rows_view, shown_name, visible_rows, ExpandedSet, TreeRow, TreeViewport};
use crate::visibility::{a_page_is_a_slice, are_apart};
use crate::winpath::{a_plain_name_is_its_own_file_name, file_name, file_name_spec, is_plain_name};

verus! {

/// How many scans are kept for later at most.
pub const MAX_SCAN_CACHE_ITEMS: usize = 2;

/// How many entries the scans that are kept for later have at most in all.
pub const MAX_SCAN_CACHE_ENTRIES: usize = 3_000_000;

// ---------------------------------------------------------------------------------------------
// The state
// ---------------------------------------------------------------------------------------------

/// A scan that is kept for later.
#[derive(Debug)]
pub struct CachedScan {
    pub path_key: String,
    pub graph: Arc<FileGraph>,
    pub visible_roots: Vec<EntryId>,
    pub scanner_label: &'static str,
    pub fallback_reason: Option<String>,
    pub summary: ScanSummary,
    pub size_bytes: u64,
    pub allocated_bytes: u64,
}

/// What is kept of a scan.
pub struct CachedView {
    pub path_key: Seq<char>,
    pub graph: Seq<EntryView>,
    pub visible_roots: Seq<u32>,
    pub scanner_label: Seq<char>,
    pub fallback_reason: Option<Seq<char>>,
    pub summary: ScanSummary,
    pub size_bytes: u64,
    pub allocated_bytes: u64,
}

impl View for CachedScan {
    type V = CachedView;

    open spec fn view(&self) -> CachedView {
        CachedView {
            path_key: self.path_key@,
            graph: self.graph@,
            visible_roots: raw_ids(self.visible_roots@),
            scanner_label: self.scanner_label@,
            fallback_reason: text_view(self.fallback_reason),
            summary: self.summary,
            size_bytes: self.size_bytes,
            allocated_bytes: self.allocated_bytes,
        }
    }
}

impl CachedScan {
    /// The graph is well-formed, and the roots are entries of it.
    pub open spec fn wf(&self) -> bool {
        &&& self.graph.wf()
        &&& all_entries(self.graph@, raw_ids(self.visible_roots@))
    }
}

/// What the window shows and keeps.
#[derive(Debug)]
pub struct AppState {
    pub graph: Option<Arc<FileGraph>>,
    pub index: Option<TreeIndex>,
    pub sort: SortSpec,
    pub visible_roots: Vec<EntryId>,
    pub current_path_key: Option<String>,
    pub cache: Vec<CachedScan>,
    pub expanded: ExpandedSet,
    pub selected: Option<EntryId>,
    pub scanning: bool,
}

/// The scans that are kept for later.
pub open spec fn cache_view(cache: Seq<CachedScan>) -> Seq<CachedView> {
    cache.map_values(|cached: CachedScan| cached@)
}

/// How many entries these scans have in all.
pub open spec fn entries_of_all(cache: Seq<CachedView>) -> nat
    decreases cache.len(),
{
    if cache.len() == 0 {
        0
    } else {
        entries_of_all(cache.drop_last()) + cache.last().graph.len()
    }
}

/// Whether no two of these scans are of the same path.
pub open spec fn keys_differ(cache: Seq<CachedView>) -> bool {
    forall|i: int, j: int|
        0 <= i < j < cache.len() ==> (#[trigger] cache[i]).path_key != (#[trigger] cache[j]).path_key
}

/// Whether no more is kept than may be kept.
pub open spec fn fits(cache: Seq<CachedView>) -> bool {
    cache.len() <= MAX_SCAN_CACHE_ITEMS && entries_of_all(cache) <= MAX_SCAN_CACHE_ENTRIES
}

impl Default for AppState {
    /// Nothing is shown, and nothing is kept.
    fn default() -> (r: Self)
        ensures
            r.wf(),
            r.graph is None,
            r.index is None,
            r.sort.key == SortKey::Size,
            r.sort.descending,
            r.visible_roots@.len() == 0,
            r.current_path_key is None,
            r.cache@.len() == 0,
            r.expanded@ == Set::<u32>::empty(),
            r.selected is None,
            !r.scanning,
    {
        AppState {
            graph: None,
            index: None,
            sort: SortSpec::default(),
            visible_roots: Vec::new(),
            current_path_key: None,
            cache: Vec::new(),
            expanded: ExpandedSet::new(),
            selected: None,
            scanning: false,
        }
    }
}

impl AppState {
    /// The graph is well-formed, the index is that of the graph in the order of the state, the roots
    /// are entries, and so it is with every scan that is kept.
    pub open spec fn wf(&self) -> bool {
        &&& self.graph matches Some(graph) ==> graph.wf() && all_entries(
            graph@,
            raw_ids(self.visible_roots@),
        )
        &&& self.index matches Some(index) ==> {
            &&& index.wf()
            &&& self.graph matches Some(graph) && is_walkable(graph@, index@) && lists_children(
                graph@,
                self.sort.order(),
                index@.below,
            )
        }
        &&& forall|k: int| 0 <= k < self.cache@.len() ==> (#[trigger] self.cache@[k]).wf()
        &&& keys_differ(cache_view(self.cache@))
        &&& fits(cache_view(self.cache@))
    }
}

/// What the entries come to where a scan is complete.
#[derive(Debug)]
pub struct ScanComplete {
    pub scanner_label: &'static str,
    pub fallback_reason: Option<String>,
    pub entries: u64,
    pub files: u64,
    pub directories: u64,
    pub inaccessible: u64,
    pub elapsed_ms: u128,
    pub size_bytes: u64,
    pub allocated_bytes: u64,
}

/// Whether this is what is said of a scan with these numbers.
pub open spec fn reports(
    complete: ScanComplete,
    label: Seq<char>,
    reason: Option<Seq<char>>,
    summary: ScanSummary,
    elapsed_ms: u128,
    size: u64,
    allocated: u64,
) -> bool {
    &&& complete.scanner_label@ == label
    &&& text_view(complete.fallback_reason) == reason
    &&& complete.entries == summary.entries
    &&& complete.files == summary.files
    &&& complete.directories == summary.directories
    &&& complete.inaccessible == summary.inaccessible
    &&& complete.elapsed_ms == elapsed_ms
    &&& complete.size_bytes == size
    &&& complete.allocated_bytes == allocated
}

fn share(graph: &Arc<FileGraph>) -> (r: Arc<FileGraph>)
    ensures
        r@ == graph@,
        graph.wf() ==> r.wf(),
{
    Arc::clone(graph)
}

fn copy_ids(ids: &Vec<EntryId>) -> (r: Vec<EntryId>)
    ensures
        r@ == ids@,
{
    let mut r: Vec<EntryId> = Vec::new();
    let mut i: usize = 0;
    while i < ids.len()
        invariant
            i <= ids@.len(),
            r@ == ids@.take(i as int),
        decreases ids@.len() - i,
    {
        r.push(ids[i]);
        i += 1;
        assert(r@ =~= ids@.take(i as int));
    }
    assert(ids@.take(ids@.len() as int) =~= ids@);
    r
}

// ---------------------------------------------------------------------------------------------
// What is in view
// ---------------------------------------------------------------------------------------------

/// Whether a viewport shows the rows of a state from line `offset` on, at most `limit` of them;
/// nothing where the state shows nothing.
pub open spec fn shows(
    state: AppState,
    offset: usize,
    limit: usize,
    query: Option<&str>,
    viewport: TreeViewport,
) -> bool {
    match (state.graph, state.index) {
        (Some(graph), Some(index)) => {
            let lines = all_lines(graph@, index@, state.expanded@, query_of(query));
            let total = counted(lines.len());
            &&& viewport.total == total
            &&& viewport.offset == if offset < total {
                offset
            } else {
                total
            }
            &&& rows_view(viewport.rows@) == rows_of(
                graph@,
                index@.below,
                state.expanded@,
                in_view(lines, offset as nat, limit as nat),
            )
        },
        _ => viewport.total == 0 && viewport.offset == 0 && viewport.rows@.len() == 0,
    }
}

/// The rows from line `offset` on, at most `limit` of them; nothing where nothing is shown.
#[must_use]
pub fn viewport_from_state(state: &AppState, offset: usize, limit: usize, query: Option<&str>) -> (r:
    TreeViewport)
    requires
        state.wf(),
    ensures
        shows(*state, offset, limit, query, r),
{
    match (&state.graph, &state.index) {
        (Some(graph), Some(index)) => visible_rows(
            graph,
            index,
            &state.expanded,
            offset,
            limit,
            query,
        ),
        _ => TreeViewport { offset: 0, total: 0, rows: Vec::new() },
    }
}

/// For every offset and limit, the page that is shown is a part of all rows, which are those of a page
/// from the first line on without a limit; both count all rows.
pub proof fn a_page_is_a_part_of_all_rows(
    state: AppState,
    order: EntryOrder,
    offset: usize,
    limit: usize,
    query: Option<&str>,
    full: TreeViewport,
    page: TreeViewport,
)
    requires
        state.graph matches Some(graph) && state.index matches Some(index) && graph.wf() && indexes(
            graph@,
            order,
            index@,
        ) && are_apart(graph@, index@.roots),
        shows(state, 0, usize::MAX, query, full),
        shows(state, offset, limit, query, page),
    ensures
        full.total == full.rows@.len(),
        page.total == full.total,
        page.offset == if offset < full.total {
            offset
        } else {
            full.total
        },
        rows_view(page.rows@) == rows_view(full.rows@).subrange(
            if offset < full.total {
                offset as int
            } else {
                full.total as int
            },
            if offset + limit < full.total {
                offset + limit
            } else {
                full.total as int
            },
        ),
{
    let graph = state.graph->0;
    let index = state.index->0;
    graph.lemma_wf();
    let lines = all_lines(graph@, index@, state.expanded@, query_of(query));
    a_page_is_a_slice(graph@, order, index@, state.expanded@, query_of(query), offset, limit);
    assert(full.rows@.len() == rows_view(full.rows@).len());
    let from = if offset < lines.len() {
        offset as int
    } else {
        lines.len() as int
    };
    let to = if offset + limit < lines.len() {
        offset + limit
    } else {
        lines.len() as int
    };
    assert(rows_of(graph@, index@.below, state.expanded@, lines.subrange(from, to)) =~= rows_of(
        graph@,
        index@.below,
        state.expanded@,
        lines,
    ).subrange(from, to));
}

/// What is the same in two states apart from the index and the order.
pub open spec fn only_order_differs(a: AppState, b: AppState) -> bool {
    &&& a.graph == b.graph
    &&& a.visible_roots == b.visible_roots
    &&& a.current_path_key == b.current_path_key
    &&& a.cache == b.cache
    &&& a.expanded == b.expanded
    &&& a.selected == b.selected
    &&& a.scanning == b.scanning
}

/// Whether `after` is `before` with the tree sorted another way; the roots that are shown stay.
pub open spec fn is_sorted_anew(before: AppState, sort: SortSpec, after: AppState) -> bool {
    &&& only_order_differs(before, after)
    &&& after.sort == sort
    &&& sort == before.sort || before.graph is None ==> after.index == before.index
    &&& sort != before.sort ==> (before.graph matches Some(graph) ==> {
        &&& after.index matches Some(index) && {
            &&& lists_children(graph@, sort.order(), index@.below)
            &&& if before.visible_roots@.len() > 0 {
                index@.roots == raw_ids(before.visible_roots@)
            } else {
                is_sorted(graph@, sort.order(), root_ids(graph@), index@.roots)
            }
        }
    })
}

/// Sorts the tree another way; the roots that are shown stay.
pub fn ensure_sort(state: &mut AppState, sort: SortSpec)
    requires
        old(state).wf(),
    ensures
        final(state).wf(),
        is_sorted_anew(*old(state), sort, *final(state)),
{
    if state.sort == sort {
        return;
    }
    let rebuilt = match &state.graph {
        Some(graph) => {
            let mut index = TreeIndex::build(graph, sort);
            if state.visible_roots.len() > 0 {
                index.roots = copy_ids(&state.visible_roots);
            }
            Some(index)
        },
        None => None,
    };
    if rebuilt.is_some() {
        state.index = rebuilt;
    }
    state.sort = sort;
}

/// The rows that a window asks for, sorted as it asks for them.
pub fn get_visible_rows(
    state: &mut AppState,
    offset: usize,
    limit: Option<usize>,
    query: Option<&str>,
    sort_key: Option<&str>,
    sort_descending: Option<bool>,
) -> (r: TreeViewport)
    requires
        old(state).wf(),
    ensures
        final(state).wf(),
        is_sorted_anew(*old(state), sort_asked(sort_key, sort_descending), *final(state)),
        shows(*final(state), offset, limit_of(limit), query, r),
{
    ensure_sort(state, SortSpec::from_parts(sort_key, sort_descending));
    viewport_from_state(state, offset, normalized_limit(limit), query)
}

/// The expanded entries once an entry has been clicked: it is shown what lies below it, or no longer;
/// nothing changes where nothing lies below it.
pub open spec fn toggled(index: Option<TreeIndex>, expanded: Set<u32>, id: u32) -> Set<u32> {
    if index matches Some(tree) && id < tree@.below.len() && tree@.below[id as int].len() > 0 {
        if expanded.contains(id) {
            expanded.remove(id)
        } else {
            expanded.insert(id)
        }
    } else {
        expanded
    }
}

/// What is the same in two states apart from the expanded entries.
pub open spec fn only_expanded_differs(a: AppState, b: AppState) -> bool {
    &&& a.graph == b.graph
    &&& a.index == b.index
    &&& a.sort == b.sort
    &&& a.visible_roots == b.visible_roots
    &&& a.current_path_key == b.current_path_key
    &&& a.cache == b.cache
    &&& a.selected == b.selected
    &&& a.scanning == b.scanning
}

fn flip_entry(state: &mut AppState, id: EntryId)
    requires
        old(state).wf(),
    ensures
        final(state).wf(),
        only_expanded_differs(*old(state), *final(state)),
        final(state).expanded@ == toggled(old(state).index, old(state).expanded@, id.0),
{
    let can_expand = match &state.index {
        Some(index) => index.child_count(id) > 0,
        None => false,
    };
    if can_expand {
        let ghost before = state.expanded@;
        if !state.expanded.insert(id) {
            let _ = state.expanded.remove(id);
            assert(before.insert(id.0).remove(id.0) =~= before.remove(id.0));
        }
    }
}

/// Shows what lies below an entry, or hides it where it is shown, and returns the rows that the
/// window asks for.
pub fn toggle_entry(
    id: u32,
    offset: usize,
    limit: Option<usize>,
    query: Option<&str>,
    sort_key: Option<&str>,
    sort_descending: Option<bool>,
    state: &mut AppState,
) -> (r: TreeViewport)
    requires
        old(state).wf(),
    ensures
        final(state).wf(),
        exists|sorted: AppState| #[trigger]
            is_sorted_anew(
                *old(state),
                sort_asked(sort_key, sort_descending),
                sorted,
            ) && only_expanded_differs(sorted, *final(state)) && final(state).expanded@ == toggled(
                sorted.index,
                sorted.expanded@,
                id,
            ),
        shows(*final(state), offset, limit_of(limit), query, r),
{
    ensure_sort(state, SortSpec::from_parts(sort_key, sort_descending));
    let ghost sorted = *state;
    flip_entry(state, EntryId(id));
    assert(is_sorted_anew(
        *old(state),
        sort_asked(sort_key, sort_descending),
        sorted,
    ));
    viewport_from_state(state, offset, normalized_limit(limit), query)
}

// ---------------------------------------------------------------------------------------------
// What is selected
// ---------------------------------------------------------------------------------------------

/// The path of an entry, where it is one of the graph that is shown.
pub open spec fn path_in(graph: Option<Arc<FileGraph>>, id: EntryId) -> Option<Seq<char>> {
    match graph {
        Some(g) => if id.0 < g@.len() {
            Some(path_of(g@, id.0 as int))
        } else {
            None
        },
        None => None,
    }
}

/// Selects an entry and returns its path, where it has one.
pub fn select_entry(state: &mut AppState, id: EntryId) -> (r: Option<String>)
    requires
        old(state).wf(),
    ensures
        final(state).wf(),
        final(state).selected == Some(id),
        final(state).graph == old(state).graph,
        final(state).index == old(state).index,
        final(state).sort == old(state).sort,
        final(state).visible_roots == old(state).visible_roots,
        final(state).current_path_key == old(state).current_path_key,
        final(state).cache == old(state).cache,
        final(state).expanded == old(state).expanded,
        final(state).scanning == old(state).scanning,
        text_view(r) == path_in(old(state).graph, id),
{
    state.selected = Some(id);
    selected_path_from_state(state)
}

/// The path of the entry that is selected.
#[must_use]
pub fn selected_path_from_state(state: &AppState) -> (r: Option<String>)
    requires
        state.wf(),
    ensures
        text_view(r) == match state.selected {
            Some(id) => path_in(state.graph, id),
            None => None,
        },
{
    match (&state.graph, state.selected) {
        (Some(graph), Some(id)) => graph.reconstruct_path(id),
        _ => None,
    }
}

/// Whether a path ends in what may be a short name, for which the system knows a longer one.
pub open spec fn may_be_short(path: Seq<char>) -> bool {
    file_name_spec(path) matches Some(name) && name.contains('~')
}

/// Whether a path ends in what may be a short name, for which the system knows a longer one.
#[must_use]
pub fn needs_long_name(path: &str) -> (r: bool)
    ensures
        r == may_be_short(path@),
{
    match file_name(path) {
        Some(name) => contains_char(&name, '~'),
        None => false,
    }
}

/// The path that is shown for a path: what the system says it is, where it may be a short one and
/// the system says anything.
pub open spec fn display_path_spec(path: Seq<char>, canonical: Option<Seq<char>>) -> Seq<char> {
    match canonical {
        Some(full) => if may_be_short(path) {
            without_verbatim_prefix(full)
        } else {
            path
        },
        None => path,
    }
}

/// The path that is shown for a path; see [`display_path_spec`].
#[must_use]
pub fn display_path(path: &str, canonical: Option<&str>) -> (r: String)
    ensures
        r@ == display_path_spec(path@, str_view(canonical)),
{
    match canonical {
        Some(full) => if needs_long_name(path) {
            strip_verbatim_prefix(full)
        } else {
            path.to_owned()
        },
        None => path.to_owned(),
    }
}

/// Puts the path that is shown into a row, and the name that it ends in.
pub fn set_display_path(row: &mut TreeRow, canonical: Option<&str>)
    ensures
        final(row).path@ == display_path_spec(old(row).path@, str_view(canonical)),
        final(row).name@ == shown_name(final(row).path@, old(row).name@),
        final(row).id == old(row).id,
        final(row).depth == old(row).depth,
        final(row).is_dir == old(row).is_dir,
        final(row).expanded == old(row).expanded,
        final(row).child_count == old(row).child_count,
        final(row).size_bytes == old(row).size_bytes,
        final(row).allocated_bytes == old(row).allocated_bytes,
        final(row).modified_unix == old(row).modified_unix,
{
    let path = display_path(&row.path, canonical);
    row.name = display_name_from_path(&path, &row.name);
    row.path = path;
}

/// The path of an entry that may be deleted, or why it may not: nothing is shown, there is no such
/// entry, or it is a root.
pub open spec fn deletable(graph: Option<Arc<FileGraph>>, id: EntryId) -> Result<Seq<char>, Seq<char>> {
    match graph {
        None => Err("scan results are not loaded"@),
        Some(g) => if id.0 >= g@.len() {
            Err("selected entry no longer exists"@)
        } else if g@[id.0 as int].parent is None {
            Err("DiskLoom will not delete the scan root"@)
        } else {
            Ok(path_of(g@, id.0 as int))
        },
    }
}

/// The texts of a result.
pub open spec fn texts_of(r: Result<String, String>) -> Result<Seq<char>, Seq<char>> {
    match r {
        Ok(text) => Ok(text@),
        Err(text) => Err(text@),
    }
}

/// The path of an entry that may be deleted, or why it may not; see [`deletable`].
pub fn selected_entry_path(id: EntryId, state: &AppState) -> (r: Result<String, String>)
    requires
        state.wf(),
    ensures
        texts_of(r) == deletable(state.graph, id),
{
    match &state.graph {
        None => Err("scan results are not loaded".to_owned()),
        Some(graph) => match graph.entry(id) {
            None => Err("selected entry no longer exists".to_owned()),
            Some(entry) => if entry.parent.is_none() {
                Err("DiskLoom will not delete the scan root".to_owned())
            } else {
                match graph.reconstruct_path(id) {
                    Some(path) => Ok(path),
                    None => Err("failed to reconstruct selected path".to_owned()),
                }
            },
        },
    }
}

/// The path that a command is for: that of the entry, where it has one that is no root; else the
/// path that was typed.
pub open spec fn target_of(path: Option<Seq<char>>, id: Option<u32>, graph: Option<Arc<FileGraph>>) -> Result<
    Seq<char>,
    Seq<char>,
> {
    let typed = match path {
        Some(text) => if trim_spec(text).len() == 0 {
            Err("select an entry or enter a path"@)
        } else {
            Ok(trim_spec(text))
        },
        None => Err("select an entry or enter a path"@),
    };
    match id {
        Some(n) => match deletable(graph, EntryId(n)) {
            Ok(found) => Ok(found),
            Err(_) => typed,
        },
        None => typed,
    }
}

/// The path that a command is for; see [`target_of`].
pub fn command_target_path(path: Option<&str>, id: Option<u32>, state: &AppState) -> (r: Result<
    String,
    String,
>)
    requires
        state.wf(),
    ensures
        texts_of(r) == target_of(str_view(path), id, state.graph),
{
    if let Some(n) = id {
        if let Ok(found) = selected_entry_path(EntryId(n), state) {
            return Ok(found);
        }
    }
    if let Some(text) = path {
        let trimmed = trim(text);
        if chars_of(&trimmed).len() > 0 {
            return Ok(trimmed);
        }
    }
    Err("select an entry or enter a path".to_owned())
}

// ---------------------------------------------------------------------------------------------
// The scans that are kept
// ---------------------------------------------------------------------------------------------

/// These scans without those of a path.
pub open spec fn without(cache: Seq<CachedView>, key: Seq<char>) -> Seq<CachedView>
    decreases cache.len(),
{
    if cache.len() == 0 {
        Seq::empty()
    } else {
        let rest = without(cache.drop_last(), key);
        if cache.last().path_key == key {
            rest
        } else {
            rest.push(cache.last())
        }
    }
}

/// The longest start of these scans that has no more entries than may be kept.
pub open spec fn with_few_entries(cache: Seq<CachedView>) -> Seq<CachedView>
    decreases cache.len(),
{
    if entries_of_all(cache) <= MAX_SCAN_CACHE_ENTRIES || cache.len() == 0 {
        cache
    } else {
        with_few_entries(cache.drop_last())
    }
}

/// What is kept of these scans: the first ones, as many as may be kept.
pub open spec fn trimmed(cache: Seq<CachedView>) -> Seq<CachedView> {
    with_few_entries(
        if cache.len() > MAX_SCAN_CACHE_ITEMS {
            cache.take(MAX_SCAN_CACHE_ITEMS as int)
        } else {
            cache
        },
    )
}

proof fn lemma_fewer_entries(cache: Seq<CachedView>, n: int)
    requires
        0 <= n <= cache.len(),
    ensures
        entries_of_all(cache.take(n)) <= entries_of_all(cache),
    decreases cache.len(),
{
    if n == cache.len() {
        assert(cache.take(n) =~= cache);
    } else {
        lemma_fewer_entries(cache.drop_last(), n);
        assert(cache.drop_last().take(n) =~= cache.take(n));
    }
}

proof fn lemma_without(cache: Seq<CachedView>, key: Seq<char>)
    ensures
        forall|k: int| 0 <= k < without(cache, key).len() ==> (#[trigger] without(cache, key)[k]).path_key
            != key && cache.contains(without(cache, key)[k]),
        without(cache, key).len() <= cache.len(),
        entries_of_all(without(cache, key)) <= entries_of_all(cache),
        keys_differ(cache) ==> keys_differ(without(cache, key)),
    decreases cache.len(),
{
    if cache.len() > 0 {
        let front = cache.drop_last();
        let rest = without(front, key);
        lemma_without(front, key);
        assert forall|k: int| 0 <= k < rest.len() implies cache.contains(#[trigger] rest[k]) by {
            let j = choose|j: int| 0 <= j < front.len() && front[j] == rest[k];
            assert(cache[j] == rest[k]);
        }
        if cache.last().path_key != key {
            let all = rest.push(cache.last());
            assert(all.drop_last() =~= rest);
            assert(cache[cache.len() - 1] == cache.last());
            if keys_differ(cache) {
                assert forall|i: int, j: int| 0 <= i < j < front.len() implies (
                #[trigger] front[i]).path_key != (#[trigger] front[j]).path_key by {
                    assert(cache[i].path_key != cache[j].path_key);
                }
                assert forall|i: int, j: int| 0 <= i < j < all.len() implies (
                #[trigger] all[i]).path_key != (#[trigger] all[j]).path_key by {
                    if j == rest.len() {
                        let m = choose|m: int| 0 <= m < front.len() && front[m] == rest[i];
                        assert(cache[m].path_key != cache[cache.len() - 1].path_key);
                    } else {
                        assert(rest[i].path_key != rest[j].path_key);
                    }
                }
            }
        } else if keys_differ(cache) {
            assert forall|i: int, j: int| 0 <= i < j < front.len() implies (
            #[trigger] front[i]).path_key != (#[trigger] front[j]).path_key by {
                assert(cache[i].path_key != cache[j].path_key);
            }
        }
    }
}

proof fn lemma_with_few_entries(cache: Seq<CachedView>)
    ensures
        with_few_entries(cache).len() <= cache.len(),
        with_few_entries(cache) == cache.take(with_few_entries(cache).len() as int),
        entries_of_all(with_few_entries(cache)) <= MAX_SCAN_CACHE_ENTRIES,
    decreases cache.len(),
{
    if entries_of_all(cache) <= MAX_SCAN_CACHE_ENTRIES || cache.len() == 0 {
        assert(cache.take(cache.len() as int) =~= cache);
    } else {
        lemma_with_few_entries(cache.drop_last());
        let n = with_few_entries(cache).len() as int;
        assert(cache.drop_last().take(n) =~= cache.take(n));
    }
}

/// What is kept is no more than may be kept.
pub proof fn what_is_kept_fits(cache: Seq<CachedView>)
    ensures
        fits(trimmed(cache)),
        keys_differ(cache) ==> keys_differ(trimmed(cache)),
{
    let few = if cache.len() > MAX_SCAN_CACHE_ITEMS {
        cache.take(MAX_SCAN_CACHE_ITEMS as int)
    } else {
        cache
    };
    lemma_with_few_entries(few);
    if keys_differ(cache) {
        let kept = trimmed(cache);
        assert forall|i: int, j: int| 0 <= i < j < kept.len() implies (
        #[trigger] kept[i]).path_key != (#[trigger] kept[j]).path_key by {
            assert(cache[i].path_key != cache[j].path_key);
        }
    }
}

/// A scan that is put first stays first, where it is small enough to be kept at all.
pub proof fn the_newest_scan_is_kept(newest: CachedView, cache: Seq<CachedView>)
    requires
        newest.graph.len() <= MAX_SCAN_CACHE_ENTRIES,
    ensures
        trimmed(seq![newest] + cache).len() > 0,
        trimmed(seq![newest] + cache)[0] == newest,
{
    let all = seq![newest] + cache;
    let few = if all.len() > MAX_SCAN_CACHE_ITEMS {
        all.take(MAX_SCAN_CACHE_ITEMS as int)
    } else {
        all
    };
    assert(few[0] == newest);
    if few.len() > 1 {
        assert(few.drop_last().drop_last() =~= Seq::<CachedView>::empty());
        assert(few.drop_last()[0] == newest);
        assert(entries_of_all(few.drop_last()) == newest.graph.len()) by {
            reveal_with_fuel(entries_of_all, 3);
        }
    } else {
        assert(few.drop_last() =~= Seq::<CachedView>::empty());
        assert(entries_of_all(few) == newest.graph.len()) by {
            reveal_with_fuel(entries_of_all, 2);
        }
    }
    reveal_with_fuel(with_few_entries, 3);
}

/// How many entries the scans that are kept have in all.
fn cached_entry_count(cache: &Vec<CachedScan>) -> (r: usize)
    requires
        entries_of_all(cache_view(cache@)) <= usize::MAX,
    ensures
        r == entries_of_all(cache_view(cache@)),
{
    let ghost all = cache_view(cache@);
    let mut sum: usize = 0;
    let mut i: usize = 0;
    while i < cache.len()
        invariant
            i <= cache@.len(),
            all == cache_view(cache@),
            entries_of_all(all) <= usize::MAX,
            sum == entries_of_all(all.take(i as int)),
        decreases cache@.len() - i,
    {
        proof {
            lemma_fewer_entries(all, i + 1);
            assert(all.take(i + 1).drop_last() =~= all.take(i as int));
        }
        sum += cache[i].graph.len();
        i += 1;
    }
    assert(all.take(all.len() as int) =~= all);
    sum
}

/// Whether two states are the same apart from the scans that are kept.
pub open spec fn only_cache_differs(a: AppState, b: AppState) -> bool {
    &&& a.graph == b.graph
    &&& a.index == b.index
    &&& a.sort == b.sort
    &&& a.visible_roots == b.visible_roots
    &&& a.current_path_key == b.current_path_key
    &&& a.expanded == b.expanded
    &&& a.selected == b.selected
    &&& a.scanning == b.scanning
}

/// Forgets the last scans until no more is kept than may be kept.
pub fn trim_scan_cache(cache: &mut Vec<CachedScan>)
    requires
        entries_of_all(cache_view(old(cache)@)) <= usize::MAX,
    ensures
        cache_view(final(cache)@) == trimmed(cache_view(old(cache)@)),
        final(cache)@.len() <= old(cache)@.len(),
        final(cache)@ == old(cache)@.take(final(cache)@.len() as int),
{
    let ghost before = cache@;
    if cache.len() > MAX_SCAN_CACHE_ITEMS {
        cache.truncate(MAX_SCAN_CACHE_ITEMS);
        proof {
            lemma_fewer_entries(cache_view(before), MAX_SCAN_CACHE_ITEMS as int);
            assert(cache_view(cache@) =~= cache_view(before).take(MAX_SCAN_CACHE_ITEMS as int));
        }
    }
    let ghost few = cache_view(cache@);
    assert(cache@ =~= before.take(cache@.len() as int));
    while cache.len() > 0 && cached_entry_count(cache) > MAX_SCAN_CACHE_ENTRIES
        invariant
            cache@.len() <= before.len(),
            cache@ == before.take(cache@.len() as int),
            with_few_entries(cache_view(cache@)) == with_few_entries(few),
            entries_of_all(cache_view(cache@)) <= usize::MAX,
        decreases cache@.len(),
    {
        let ghost now = cache@;
        let _ = cache.pop();
        proof {
            lemma_fewer_entries(cache_view(now), now.len() - 1);
            assert(cache_view(cache@) =~= cache_view(now).take(now.len() - 1));
            assert(cache_view(cache@) =~= cache_view(now).drop_last());
            assert(cache@ =~= before.take(cache@.len() as int));
        }
    }
}

/// Forgets the scans of a path.
fn forget_path(cache: &mut Vec<CachedScan>, key: &str)
    requires
        forall|k: int| 0 <= k < old(cache)@.len() ==> (#[trigger] old(cache)@[k]).wf(),
    ensures
        cache_view(final(cache)@) == without(cache_view(old(cache)@), key@),
        forall|k: int| 0 <= k < final(cache)@.len() ==> (#[trigger] final(cache)@[k]).wf(),
{
    let ghost all = cache_view(cache@);
    let ghost mut seen: int = 0;
    let mut i: usize = 0;
    assert(all.take(0) =~= Seq::<CachedView>::empty());
    assert(without(all.take(0), key@) + all.skip(0) =~= all);
    while i < cache.len()
        invariant
            0 <= seen <= all.len(),
            i == without(all.take(seen), key@).len(),
            cache_view(cache@) == without(all.take(seen), key@) + all.skip(seen),
            forall|k: int| 0 <= k < cache@.len() ==> (#[trigger] cache@[k]).wf(),
        decreases all.len() - seen,
    {
        let ghost now = cache@;
        let ghost kept = without(all.take(seen), key@);
        proof {
            assert(cache_view(now).len() == kept.len() + all.len() - seen);
            assert(cache_view(now)[i as int] == all[seen]);
            assert(all.take(seen + 1).drop_last() =~= all.take(seen));
            assert(all.take(seen + 1).last() == all[seen]);
        }
        if same_text(&cache[i].path_key, key) {
            let _ = cache.remove(i);
            proof {
                assert(cache_view(cache@) =~= cache_view(now).remove(i as int));
                assert(cache_view(now) =~= kept + all.skip(seen));
                assert((kept + all.skip(seen)).remove(i as int) =~= kept + all.skip(seen + 1));
            }
        } else {
            i += 1;
            proof {
                assert(cache_view(cache@) =~= kept.push(all[seen]) + all.skip(seen + 1));
            }
        }
        proof {
            seen = seen + 1;
        }
    }
    proof {
        assert(cache_view(cache@).len() == cache@.len());
        assert(seen == all.len());
        assert(all.take(seen) =~= all);
        assert(cache_view(cache@) =~= without(all, key@));
    }
}

/// What is kept of the scan that a state shows: nothing where it shows none, or one that is too
/// large to be kept.
pub open spec fn worth_keeping(state: AppState) -> Option<CachedView> {
    match (state.current_path_key, state.graph, state.index) {
        (Some(key), Some(graph), Some(index)) => if graph@.len() > MAX_SCAN_CACHE_ENTRIES {
            None
        } else {
            let roots = if state.visible_roots@.len() == 0 {
                index@.roots
            } else {
                raw_ids(state.visible_roots@)
            };
            Some(
                CachedView {
                    path_key: key@,
                    graph: graph@,
                    visible_roots: roots,
                    scanner_label: "cached scan"@,
                    fallback_reason: None,
                    summary: summary_of(graph@),
                    size_bytes: size_of_all(graph@, roots),
                    allocated_bytes: allocated_of_all(graph@, roots),
                },
            )
        },
        _ => None,
    }
}

/// What is kept once a scan is to be kept too: it comes first, in place of an earlier one of its
/// path.
pub open spec fn with_newest(cache: Seq<CachedView>, newest: Option<CachedView>) -> Seq<CachedView> {
    match newest {
        Some(scan) => trimmed(seq![scan] + without(cache, scan.path_key)),
        None => cache,
    }
}

proof fn lemma_one_more(newest: CachedView, cache: Seq<CachedView>)
    ensures
        entries_of_all(seq![newest] + cache) == newest.graph.len() + entries_of_all(cache),
    decreases cache.len(),
{
    let all = seq![newest] + cache;
    if cache.len() == 0 {
        assert(all.drop_last() =~= Seq::<CachedView>::empty());
        reveal_with_fuel(entries_of_all, 2);
    } else {
        lemma_one_more(newest, cache.drop_last());
        assert(all.drop_last() =~= seq![newest] + cache.drop_last());
    }
}

/// Keeps the scan that is shown, for when its path is asked for again.
pub fn cache_current_scan(state: &mut AppState)
    requires
        old(state).wf(),
    ensures
        final(state).wf(),
        only_cache_differs(*old(state), *final(state)),
        cache_view(final(state).cache@) == with_newest(
            cache_view(old(state).cache@),
            worth_keeping(*old(state)),
        ),
{
    let newest = match (&state.current_path_key, &state.graph, &state.index) {
        (Some(key), Some(graph), Some(index)) => if graph.len() > MAX_SCAN_CACHE_ENTRIES {
            None
        } else {
            let visible_roots = if state.visible_roots.len() == 0 {
                copy_ids(&index.roots)
            } else {
                copy_ids(&state.visible_roots)
            };
            let (size_bytes, allocated_bytes) = totals_for_roots(graph, &visible_roots);
            let summary = summary_from_graph(graph);
            Some(
                CachedScan {
                    path_key: key.as_str().to_owned(),
                    graph: share(graph),
                    visible_roots,
                    scanner_label: "cached scan",
                    fallback_reason: None,
                    summary,
                    size_bytes,
                    allocated_bytes,
                },
            )
        },
        _ => None,
    };
    if let Some(scan) = newest {
        let ghost kept = cache_view(state.cache@);
        let ghost first = scan@;
        assert(worth_keeping(*state) == Some(first));
        let key = scan.path_key.as_str().to_owned();
        forget_path(&mut state.cache, &key);
        let ghost rest = state.cache@;
        state.cache.insert(0, scan);
        proof {
            lemma_without(kept, first.path_key);
            lemma_one_more(first, cache_view(rest));
            assert(cache_view(state.cache@) =~= seq![first] + cache_view(rest));
            let all = cache_view(state.cache@);
            assert forall|i: int, j: int| 0 <= i < j < all.len() implies (
            #[trigger] all[i]).path_key != (#[trigger] all[j]).path_key by {
                assert(all[j] == cache_view(rest)[j - 1]);
                if i > 0 {
                    assert(all[i] == cache_view(rest)[i - 1]);
                }
            }
            what_is_kept_fits(all);
        }
        trim_scan_cache(&mut state.cache);
    }
}

/// Whether the `i`-th scan is the first one of a path.
pub open spec fn is_first_of(cache: Seq<CachedView>, key: Seq<char>, i: int) -> bool {
    &&& 0 <= i < cache.len()
    &&& cache[i].path_key == key
    &&& forall|j: int| 0 <= j < i ==> (#[trigger] cache[j]).path_key != key
}

/// Whether a scan of a path is kept.
pub open spec fn keeps(cache: Seq<CachedView>, key: Seq<char>) -> bool {
    exists|i: int| #[trigger] is_first_of(cache, key, i)
}

/// A scan of every path that a list has is found in it.
pub proof fn what_is_kept_is_found(cache: Seq<CachedView>, i: int)
    requires
        0 <= i < cache.len(),
    ensures
        keeps(cache, cache[i].path_key),
        keys_differ(cache) ==> is_first_of(cache, cache[i].path_key, i),
    decreases i,
{
    let key = cache[i].path_key;
    if exists|j: int| 0 <= j < i && (#[trigger] cache[j]).path_key == key {
        let j = choose|j: int| 0 <= j < i && (#[trigger] cache[j]).path_key == key;
        what_is_kept_is_found(cache, j);
    } else {
        assert(is_first_of(cache, key, i));
    }
}

/// A scan that is left for another one is found again by its path, just as it was, where it is small
/// enough to be kept at all.
pub proof fn a_scan_that_was_left_is_found_again(cache: Seq<CachedView>, scan: CachedView)
    requires
        scan.graph.len() <= MAX_SCAN_CACHE_ENTRIES,
    ensures
        is_first_of(with_newest(cache, Some(scan)), scan.path_key, 0),
        with_newest(cache, Some(scan))[0] == scan,
{
    the_newest_scan_is_kept(scan, without(cache, scan.path_key));
}

/// Takes the scan of a path out of those that are kept.
pub fn take_cached_scan(state: &mut AppState, path_key: &str) -> (r: Option<CachedScan>)
    requires
        old(state).wf(),
    ensures
        final(state).wf(),
        only_cache_differs(*old(state), *final(state)),
        match r {
            Some(scan) => {
                &&& scan.wf()
                &&& exists|i: int| #[trigger]
                    is_first_of(cache_view(old(state).cache@), path_key@, i) && scan@ == cache_view(
                        old(state).cache@,
                    )[i] && cache_view(final(state).cache@) == cache_view(
                        old(state).cache@,
                    ).remove(i)
            },
            None => !keeps(cache_view(old(state).cache@), path_key@) && final(state).cache@ == old(
                state,
            ).cache@,
        },
{
    let ghost all = cache_view(state.cache@);
    let mut i: usize = 0;
    while i < state.cache.len()
        invariant
            *state == *old(state),
            old(state).wf(),
            all == cache_view(state.cache@),
            i <= all.len(),
            forall|j: int| 0 <= j < i ==> (#[trigger] all[j]).path_key != path_key@,
        decreases all.len() - i,
    {
        assert(all[i as int] == state.cache@[i as int]@);
        if same_text(&state.cache[i].path_key, path_key) {
            assert(is_first_of(all, path_key@, i as int));
            let scan = state.cache.remove(i);
            proof {
                let rest = cache_view(state.cache@);
                assert(rest =~= all.remove(i as int));
                lemma_one_less(all, i as int);
                assert forall|a: int, b: int| 0 <= a < b < rest.len() implies (
                #[trigger] rest[a]).path_key != (#[trigger] rest[b]).path_key by {
                    let x = if a < i {
                        a
                    } else {
                        a + 1
                    };
                    let y = if b < i {
                        b
                    } else {
                        b + 1
                    };
                    assert(all[x].path_key != all[y].path_key);
                }
            }
            return Some(scan);
        }
        i += 1;
    }
    None
}

proof fn lemma_one_less(cache: Seq<CachedView>, i: int)
    requires
        0 <= i < cache.len(),
    ensures
        entries_of_all(cache.remove(i)) <= entries_of_all(cache),
    decreases cache.len(),
{
    if i == cache.len() - 1 {
        assert(cache.remove(i) =~= cache.drop_last());
    } else {
        lemma_one_less(cache.drop_last(), i);
        assert(cache.remove(i).drop_last() =~= cache.drop_last().remove(i));
        assert(cache.remove(i).last() == cache.last());
    }
}

// ---------------------------------------------------------------------------------------------
// A scan from its start to its end
// ---------------------------------------------------------------------------------------------

/// Whether a state shows this scan of this path: its roots are expanded, nothing is selected, and no
/// scan is running.
pub open spec fn shows_scan(
    state: AppState,
    key: Seq<char>,
    graph: Seq<EntryView>,
    roots: Seq<u32>,
) -> bool {
    &&& state.graph matches Some(g) && g@ == graph
    &&& state.index matches Some(index) && index@.roots == roots && lists_children(
        graph,
        state.sort.order(),
        index@.below,
    )
    &&& raw_ids(state.visible_roots@) == roots
    &&& text_view(state.current_path_key) == Some(key)
    &&& state.expanded@ == roots.to_set()
    &&& state.selected is None
    &&& !state.scanning
}

/// Shows a scan that was kept.
pub fn restore_cached_scan(state: &mut AppState, cached: CachedScan) -> (r: ScanComplete)
    requires
        old(state).wf(),
        cached.wf(),
    ensures
        final(state).wf(),
        final(state).sort == old(state).sort,
        final(state).cache == old(state).cache,
        shows_scan(*final(state), cached@.path_key, cached@.graph, cached@.visible_roots),
        reports(
            r,
            cached@.scanner_label,
            cached@.fallback_reason,
            cached.summary,
            0,
            cached.size_bytes,
            cached.allocated_bytes,
        ),
{
    let mut index = TreeIndex::build(&cached.graph, state.sort);
    index.roots = copy_ids(&cached.visible_roots);
    state.expanded.reset_to(&index.roots);
    state.visible_roots = cached.visible_roots;
    state.current_path_key = Some(cached.path_key);
    state.graph = Some(cached.graph);
    state.index = Some(index);
    state.selected = None;
    state.scanning = false;
    ScanComplete {
        scanner_label: cached.scanner_label,
        fallback_reason: cached.fallback_reason,
        entries: cached.summary.entries,
        files: cached.summary.files,
        directories: cached.summary.directories,
        inaccessible: cached.summary.inaccessible,
        elapsed_ms: 0,
        size_bytes: cached.size_bytes,
        allocated_bytes: cached.allocated_bytes,
    }
}

/// What a request for a scan leads to.
#[derive(Debug)]
pub enum ScanStart {
    /// A scan of the path was kept, and is shown.
    Restored { path: String, complete: ScanComplete },
    /// The path is to be scanned.
    Started { path: String, path_key: String },
}

/// What is kept where a path is scanned anew: a forced scan forgets the earlier one of its path.
pub open spec fn kept_at_start(state: AppState, key: Seq<char>, force: bool) -> Seq<CachedView> {
    let cache = cache_view(state.cache@);
    if !force {
        with_newest(cache, worth_keeping(state))
    } else if text_view(state.current_path_key) == Some(key) {
        without(cache, key)
    } else {
        with_newest(without(cache, key), worth_keeping(state))
    }
}

/// Whether this is what a request for a scan of a path leads to.
pub open spec fn answers_request(
    before: AppState,
    path: Seq<char>,
    force: bool,
    after: AppState,
    answer: Result<ScanStart, String>,
) -> bool {
    let path = trim_spec(path);
    let key = path_key(path);
    let cache = cache_view(before.cache@);
    if path.len() == 0 {
        &&& answer matches Err(message) && message@ == "enter a drive or folder path"@
        &&& after == before
    } else if before.scanning {
        &&& answer matches Err(message) && message@ == "a scan is already running"@
        &&& after == before
    } else if !force && keeps(cache, key) {
        answer matches Ok(ScanStart::Restored { path: shown, complete }) && {
            &&& shown@ == path
            &&& after.sort == before.sort
            &&& exists|i: int| #[trigger]
                is_first_of(cache, key, i) && {
                    &&& cache_view(after.cache@) == with_newest(
                        cache.remove(i),
                        worth_keeping(before),
                    )
                    &&& shows_scan(after, key, cache[i].graph, cache[i].visible_roots)
                    &&& reports(
                        complete,
                        cache[i].scanner_label,
                        cache[i].fallback_reason,
                        cache[i].summary,
                        0,
                        cache[i].size_bytes,
                        cache[i].allocated_bytes,
                    )
                }
        }
    } else {
        answer matches Ok(ScanStart::Started { path: scanned, path_key: its_key }) && {
            &&& scanned@ == path
            &&& its_key@ == key
            &&& after.graph is None
            &&& after.index is None
            &&& after.sort == before.sort
            &&& after.visible_roots@.len() == 0
            &&& after.current_path_key is None
            &&& cache_view(after.cache@) == kept_at_start(before, key, force)
            &&& after.expanded@ == Set::<u32>::empty()
            &&& after.selected is None
            &&& after.scanning
        }
    }
}

/// Asks for a scan of a path: one that was kept is shown at once unless the scan is forced.
pub fn start_scan(state: &mut AppState, path: &str, force: Option<bool>) -> (r: Result<
    ScanStart,
    String,
>)
    requires
        old(state).wf(),
    ensures
        final(state).wf(),
        answers_request(*old(state), path@, force == Some(true), *final(state), r),
{
    let path = trim(path);
    if chars_of(&path).len() == 0 {
        return Err("enter a drive or folder path".to_owned());
    }
    if state.scanning {
        return Err("a scan is already running".to_owned());
    }
    let path_key = normalized_path_key(&path);
    let force = match force {
        Some(force) => force,
        None => false,
    };
    let ghost cache = cache_view(state.cache@);
    if force {
        proof {
            lemma_without(cache, path_key@);
        }
        forget_path(&mut state.cache, &path_key);
        let shows_it = match &state.current_path_key {
            Some(key) => same_text(key, &path_key),
            None => false,
        };
        if !shows_it {
            cache_current_scan(state);
        }
    } else {
        if let Some(cached) = take_cached_scan(state, &path_key) {
            let ghost i = choose|i: int| #[trigger]
                is_first_of(cache, path_key@, i) && cached@ == cache[i] && cache_view(state.cache@)
                    == cache.remove(i);
            assert(keeps(cache, path_key@));
            assert(worth_keeping(*state) == worth_keeping(*old(state)));
            cache_current_scan(state);
            let complete = restore_cached_scan(state, cached);
            return Ok(ScanStart::Restored { path, complete });
        }
        cache_current_scan(state);
    }
    state.graph = None;
    state.index = None;
    state.visible_roots = Vec::new();
    state.current_path_key = None;
    state.expanded.clear();
    state.selected = None;
    state.scanning = true;
    Ok(ScanStart::Started { path, path_key })
}

/// What a scan found.
#[derive(Debug)]
pub struct ScanOutcome {
    pub graph: FileGraph,
    pub summary: ScanSummary,
    pub scanner_label: &'static str,
    pub fallback_reason: Option<String>,
    pub display_root: Option<String>,
}

/// The entry that a scan is shown from, where it is not shown whole.
pub open spec fn shown_root(graph: Seq<EntryView>, display_root: Option<Seq<char>>) -> Option<u32> {
    match display_root {
        Some(path) => entry_at_path(graph, path),
        None => None,
    }
}

/// Shows what a scan found, the largest first.
pub fn apply_scan_complete(
    state: &mut AppState,
    outcome: ScanOutcome,
    elapsed_ms: u128,
    path_key: String,
) -> (r: ScanComplete)
    requires
        old(state).wf(),
        outcome.graph.wf(),
    ensures
        final(state).wf(),
        final(state).cache == old(state).cache,
        final(state).sort == (SortSpec { key: SortKey::Size, descending: true }),
        exists|roots: Seq<u32>| #[trigger]
            shows_scan(*final(state), path_key@, outcome.graph@, roots) && match shown_root(
                outcome.graph@,
                text_view(outcome.display_root),
            ) {
                Some(root) => roots == seq![root],
                None => is_sorted(
                    outcome.graph@,
                    final(state).sort.order(),
                    root_ids(outcome.graph@),
                    roots,
                ),
            } && reports(
                r,
                outcome.scanner_label@,
                text_view(outcome.fallback_reason),
                outcome.summary,
                elapsed_ms,
                size_of_all(outcome.graph@, roots),
                allocated_of_all(outcome.graph@, roots),
            ),
{
    let ghost g = outcome.graph@;
    let sort = SortSpec::default();
    let mut index = TreeIndex::build(&outcome.graph, sort);
    if let Some(path) = &outcome.display_root {
        if let Some(root) = find_graph_path(&outcome.graph, path) {
            let roots: Vec<EntryId> = vec![root];
            assert(raw_ids(roots@) =~= seq![root.0]);
            index.roots = roots;
        }
    }
    let visible_roots = copy_ids(&index.roots);
    let (size_bytes, allocated_bytes) = totals_for_roots(&outcome.graph, &visible_roots);
    state.expanded.reset_to(&index.roots);
    state.sort = sort;
    state.visible_roots = visible_roots;
    state.current_path_key = Some(path_key);
    state.graph = Some(Arc::new(outcome.graph));
    state.index = Some(index);
    state.selected = None;
    state.scanning = false;
    assert(shows_scan(*state, path_key@, g, index@.roots));
    ScanComplete {
        scanner_label: outcome.scanner_label,
        fallback_reason: outcome.fallback_reason,
        entries: outcome.summary.entries,
        files: outcome.summary.files,
        directories: outcome.summary.directories,
        inaccessible: outcome.summary.inaccessible,
        elapsed_ms,
        size_bytes,
        allocated_bytes,
    }
}

/// Takes note that a scan failed.
pub fn apply_scan_error(state: &mut AppState)
    requires
        old(state).wf(),
    ensures
        final(state).wf(),
        *final(state) == (AppState { scanning: false, ..*old(state) }),
{
    state.scanning = false;
}

/// What is said where a file could not be deleted.
#[must_use]
pub fn deletion_failure(permanently: bool, error: &str) -> (r: String)
    ensures
        r@ == if permanently {
            "failed to permanently delete path: "@ + error@
        } else {
            "failed to move to Recycle Bin: "@ + error@
        },
{
    let mut r = if permanently {
        "failed to permanently delete path: ".to_owned()
    } else {
        "failed to move to Recycle Bin: ".to_owned()
    };
    push_text(&mut r, error);
    r
}

/// Forgets every scan that was kept, and what is selected: what is on disk has changed.
pub fn invalidate_scan_cache(state: &mut AppState)
    requires
        old(state).wf(),
    ensures
        final(state).wf(),
        final(state).cache@.len() == 0,
        final(state).selected is None,
        final(state).graph == old(state).graph,
        final(state).index == old(state).index,
        final(state).sort == old(state).sort,
        final(state).visible_roots == old(state).visible_roots,
        final(state).current_path_key == old(state).current_path_key,
        final(state).expanded == old(state).expanded,
        final(state).scanning == old(state).scanning,
{
    state.cache = Vec::new();
    state.selected = None;
}

/// Leaving a scan for another path and asking for it again shows it as it was left, where it is small
/// enough to be kept and nothing was forced in between.
pub proof fn a_scan_comes_back(
    shown: AppState,
    other: Seq<char>,
    scanning: AppState,
    first: Result<ScanStart, String>,
    complete: AppState,
    again: Seq<char>,
    restored: AppState,
    second: Result<ScanStart, String>,
)
    requires
        shown.wf(),
        worth_keeping(shown) is Some,
        // The other path is scanned.
        answers_request(shown, other, false, scanning, first),
        first is Ok,
        first matches Ok(start) && start is Started,
        // Its scan is complete; the scans that are kept stay.
        complete.cache == scanning.cache,
        !complete.scanning,
        // The first path is asked for again.
        trim_spec(again).len() > 0,
        text_view(shown.current_path_key) == Some(path_key(trim_spec(again))),
        answers_request(complete, again, false, restored, second),
    ensures
        second is Ok,
        second matches Ok(start) && start is Restored,
        shows_scan(
            restored,
            path_key(trim_spec(again)),
            worth_keeping(shown).unwrap().graph,
            worth_keeping(shown).unwrap().visible_roots,
        ),
{
    let scan = worth_keeping(shown).unwrap();
    let key = path_key(trim_spec(again));
    let cache = cache_view(complete.cache@);
    a_scan_that_was_left_is_found_again(cache_view(shown.cache@), scan);
    assert(cache == with_newest(cache_view(shown.cache@), Some(scan)));
    assert(is_first_of(cache, key, 0));
    assert(keeps(cache, key));
    assert forall|i: int| #[trigger] is_first_of(cache, key, i) implies i == 0 by {
        if i > 0 {
            assert(cache[0].path_key != key);
        }
    }
}

/// Clicking an entry twice shows what was shown before, and no other entry is opened or closed by it.
/// An entry with something below it is opened where it was closed, and closed where it was open; one
/// with nothing below it stays as it is.
pub proof fn clicking_twice_changes_nothing(
    index: Option<TreeIndex>,
    expanded: Set<u32>,
    id: u32,
    other: u32,
)
    ensures
        toggled(index, toggled(index, expanded, id), id) == expanded,
        other != id ==> toggled(index, expanded, id).contains(other) == expanded.contains(other),
        index matches Some(tree) ==> (id < tree@.below.len() ==> (toggled(index, expanded, id).contains(
            id,
        ) != expanded.contains(id) <==> tree@.below[id as int].len() > 0)),
        index is None ==> toggled(index, expanded, id) == expanded,
{
    assert(toggled(index, toggled(index, expanded, id), id) =~= expanded);
}

/// Only an entry that hangs on another can be deleted: what is found for it is its path. A root, an
/// entry that is not there and one of which nothing is loaded are refused.
pub proof fn only_what_hangs_on_another_is_deleted(graph: Option<Arc<FileGraph>>, id: EntryId)
    ensures
        deletable(graph, id) is Ok <==> (graph matches Some(g) && id.0 < g@.len()
            && g@[id.0 as int].parent is Some),
        deletable(graph, id) matches Ok(path) ==> (graph matches Some(g) && path == path_of(
            g@,
            id.0 as int,
        )),
{
}

/// What a command is for is the entry that was chosen, where it can be deleted, whatever was typed;
/// else what was typed, without the white space around it; and nothing where nothing was typed.
pub proof fn a_command_is_for_what_was_chosen_or_typed(
    id: Option<u32>,
    graph: Option<Arc<FileGraph>>,
    before: Seq<char>,
    text: Seq<char>,
    after: Seq<char>,
)
    requires
        all_white(before),
        all_white(after),
        text.len() > 0 ==> !is_white_space_spec(text[0]) && !is_white_space_spec(text.last()),
    ensures
        ({
            let typed = before + text + after;
            let chosen = id matches Some(n) && deletable(graph, EntryId(n)) is Ok;
            &&& chosen ==> target_of(Some(typed), id, graph) == deletable(graph, EntryId(id->0))
            &&& chosen ==> target_of(None, id, graph) == deletable(graph, EntryId(id->0))
            &&& !chosen && text.len() > 0 ==> target_of(Some(typed), id, graph) == Ok::<Seq<char>, Seq<char>>(
                text,
            )
            &&& !chosen && text.len() == 0 ==> target_of(Some(typed), id, graph) is Err
            &&& !chosen ==> target_of(None, id, graph) is Err
        }),
{
    trimming_leaves_the_text(before, text, after);
}

/// Forgetting the scans of a path forgets those and no others.
pub proof fn forgetting_a_path_leaves_the_others(cache: Seq<CachedView>, key: Seq<char>, scan: CachedView)
    ensures
        without(cache, key).contains(scan) <==> cache.contains(scan) && scan.path_key != key,
        without(cache, key).len() == cache.len() ==> without(cache, key) == cache,
    decreases cache.len(),
{
    lemma_without(cache, key);
    if cache.len() > 0 {
        let front = cache.drop_last();
        let last = cache[cache.len() - 1];
        let rest = without(front, key);
        let all = without(cache, key);
        forgetting_a_path_leaves_the_others(front, key, scan);
        lemma_without(front, key);
        assert(cache =~= front.push(last));
        if cache.contains(scan) && scan.path_key != key {
            let k = choose|k: int| 0 <= k < cache.len() && cache[k] == scan;
            if k < front.len() {
                assert(front[k] == scan);
                assert(rest.contains(scan));
                let m = choose|m: int| 0 <= m < rest.len() && rest[m] == scan;
                assert(all[m] == scan);
            } else {
                assert(all[rest.len() as int] == scan);
            }
        }
        if all.contains(scan) {
            let k = choose|k: int| 0 <= k < all.len() && all[k] == scan;
            assert(all[k].path_key != key && cache.contains(all[k]));
        }
    } else {
        assert(without(cache, key) =~= cache);
    }
}

/// As many scans are kept as may be kept: they are the first ones, and with the next one they would be
/// too many, or have too many entries.
pub proof fn as_many_are_kept_as_may_be(cache: Seq<CachedView>)
    ensures
        trimmed(cache).len() <= cache.len(),
        trimmed(cache) == cache.take(trimmed(cache).len() as int),
        fits(trimmed(cache)),
        trimmed(cache).len() < cache.len() ==> !fits(cache.take(trimmed(cache).len() as int + 1)),
        fits(cache) ==> trimmed(cache) == cache,
{
    what_is_kept_fits(cache);
    let few = if cache.len() > MAX_SCAN_CACHE_ITEMS {
        cache.take(MAX_SCAN_CACHE_ITEMS as int)
    } else {
        cache
    };
    lemma_with_few_entries(few);
    lemma_longest_start(few);
    let n = trimmed(cache).len() as int;
    assert(few.take(n) =~= cache.take(n));
    if n < cache.len() {
        if n < few.len() {
            assert(few.take(n + 1) =~= cache.take(n + 1));
        }
    } else {
        assert(cache.take(n) =~= cache);
    }
}

proof fn lemma_longest_start(cache: Seq<CachedView>)
    ensures
        with_few_entries(cache).len() < cache.len() ==> entries_of_all(
            cache.take(with_few_entries(cache).len() as int + 1),
        ) > MAX_SCAN_CACHE_ENTRIES,
    decreases cache.len(),
{
    if !(entries_of_all(cache) <= MAX_SCAN_CACHE_ENTRIES || cache.len() == 0) {
        let shorter = cache.drop_last();
        lemma_longest_start(shorter);
        lemma_with_few_entries(shorter);
        let n = with_few_entries(shorter).len() as int;
        if n == shorter.len() {
            assert(cache.take(n + 1) =~= cache);
        } else {
            assert(shorter.take(n + 1) =~= cache.take(n + 1));
        }
    }
}

/// A path is shown as it is unless its last component has a tilde in it and the system knows another
/// path for it: then that one is shown, without the prefix `\\?\`.
pub proof fn only_short_names_are_shown_in_full(path: Seq<char>, full: Seq<char>)
    requires
        !(full.len() >= 4 && full[0] == '\\' && full[1] == '\\' && full[2] == '?' && full[3] == '\\'),
    ensures
        display_path_spec(path, None) == path,
        !path.contains('~') && is_plain_name(path) ==> display_path_spec(path, Some(full)) == path,
        path.contains('~') && is_plain_name(path) ==> display_path_spec(path, Some(full)) == full,
        path.contains('~') && is_plain_name(path) ==> display_path_spec(
            path,
            Some(seq!['\\', '\\', '?', '\\'] + full),
        ) == full,
{
    let prefix = seq!['\\', '\\', '?', '\\'];
    let long = prefix + full;
    assert(long.subrange(0, 4) =~= prefix);
    assert(long.skip(4) =~= full);
    if starts_with_spec(full, prefix) {
        assert(full.subrange(0, 4) == prefix);
        assert(full.subrange(0, 4)[0] == full[0]);
        assert(full.subrange(0, 4)[1] == full[1]);
        assert(full.subrange(0, 4)[2] == full[2]);
        assert(full.subrange(0, 4)[3] == full[3]);
    }
    if is_plain_name(path) {
        a_plain_name_is_its_own_file_name(path);
    }
}

/// What is said of a scan of a whole graph counts every entry once, as a directory where it has the
/// first mark and else as a file, and tells the sums over all entries, as far as they can be counted.
pub proof fn a_report_tells_of_every_entry(
    complete: ScanComplete,
    label: Seq<char>,
    reason: Option<Seq<char>>,
    elapsed_ms: u128,
    g: Seq<EntryView>,
)
    requires
        is_forest(g),
        reports(
            complete,
            label,
            reason,
            summary_of(g),
            elapsed_ms,
            size_of_all(g, root_ids(g)),
            allocated_of_all(g, root_ids(g)),
        ),
    ensures
        complete.entries == g.len(),
        complete.files + complete.directories == g.len(),
        complete.directories == marked_before(g, g.len()),
        complete.inaccessible == 0,
        complete.elapsed_ms == elapsed_ms,
        complete.size_bytes == capped(
            sum_where(g.len(), |i: int| true, |i: int| g[i].size as nat),
            u64::MAX as nat,
        ),
        complete.allocated_bytes == capped(
            sum_where(g.len(), |i: int| true, |i: int| g[i].allocated as nat),
            u64::MAX as nat,
        ),
{
    a_summary_counts_every_entry(g);
    roots_account_for_every_size(g);
    roots_account_for_every_allocation(g);
}

/// A scan that is kept is that of the path that is shown, with all its entries and what was shown of
/// it; one that is too large is not kept.
pub proof fn what_is_shown_is_what_is_kept(state: AppState)
    requires
        state.wf(),
    ensures
        worth_keeping(state) matches Some(scan) ==> {
            &&& state.graph matches Some(graph) && scan.graph == graph@
            &&& text_view(state.current_path_key) == Some(scan.path_key)
            &&& state.visible_roots@.len() > 0 ==> scan.visible_roots == raw_ids(state.visible_roots@)
            &&& scan.summary.entries == scan.graph.len()
            &&& scan.graph.len() <= 3_000_000
        },
        state.graph is None ==> worth_keeping(state) is None,
        state.current_path_key is None ==> worth_keeping(state) is None,
        state.graph matches Some(graph) ==> (graph@.len() > 3_000_000 ==> worth_keeping(state) is None),
{
}

} // verus!
