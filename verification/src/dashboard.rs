//! The lists of the desktop window: the tree with the largest first, the files that a filter finds,
//! and the groups of duplicates.

use vstd::prelude::*;

use crate::candidates::{candidates_view, duplicate_key, files_with, find_duplicate_candidates,
    lists_duplicates, may_repeat, CandidateView, DuplicateCandidate, DuplicateKey};
use crate::filter::{a_search_lists_what_passes, passes, passing, CompiledFilter, QueryFilter};
use crate::graph::{capped, has_marks, is_directory, path_of, raw_ids, subtree_sum,
    the_first_mark_makes_a_directory, total_allocated, total_size, EntryFlags, EntryId, EntryView,
    FileGraph};
use crate::inputs::{asks_for, field_text, first_complaint, is_matcher_for, FilterInputs, InputError};
use crate::order::{is_ranking_of, is_text_before, lemma_one_list, lemma_same_members, sort_ids,
    text_before, text_order_is_total, text_order_is_transitive, Ranking};
use crate::ranking::{is_sorted, is_top, nothing_larger_is_left_out, size_that_counts,
    the_top_is_picked, top_entries_by_total_size, OrderKey};
use crate::select::{select, select_picks};
use crate::text::strings_view;
use crate::tree::{all_entries, indexes, is_walkable, largest_totals_first, root_ids, TreeIndex, TreeView};
use crate::viewport::{all_lines, in_view, lines_from, lines_of_all, Line};

verus! {

// ---------------------------------------------------------------------------------------------
// The tree
// ---------------------------------------------------------------------------------------------

/// A row of the whole tree.
#[derive(Debug)]
pub struct OutlineRow {
    pub id: EntryId,
    pub name: String,
    pub path_text: String,
    pub depth: usize,
    pub kind: &'static str,
    pub size: u64,
    pub allocated: u64,
}

/// What a row of the whole tree shows.
pub struct OutlineView {
    pub id: u32,
    pub name: Seq<char>,
    pub path_text: Seq<char>,
    pub depth: nat,
    pub kind: Seq<char>,
    pub size: u64,
    pub allocated: u64,
}

impl View for OutlineRow {
    type V = OutlineView;

    open spec fn view(&self) -> OutlineView {
        OutlineView {
            id: self.id.0,
            name: self.name@,
            path_text: self.path_text@,
            depth: self.depth as nat,
            kind: self.kind@,
            size: self.size,
            allocated: self.allocated,
        }
    }
}

/// The word for what an entry is.
pub open spec fn kind_word(flags: u16) -> Seq<char> {
    if is_directory(flags) {
        "dir"@
    } else if has_marks(flags, EntryFlags::SYMLINK) {
        "link"@
    } else {
        "file"@
    }
}

/// The row of a line of the whole tree.
pub open spec fn outline_of(g: Seq<EntryView>, line: Line) -> OutlineView {
    let i = line.id as int;
    OutlineView {
        id: line.id,
        name: g[i].name,
        path_text: path_of(g, i),
        depth: line.depth,
        kind: kind_word(g[i].flags),
        size: total_size(g, i),
        allocated: total_allocated(g, i),
    }
}

/// The rows of these lines.
pub open spec fn outlines_of(g: Seq<EntryView>, lines: Seq<Line>) -> Seq<OutlineView> {
    lines.map_values(|line: Line| outline_of(g, line))
}

/// What the rows show.
pub open spec fn outlines_view(rows: Seq<OutlineRow>) -> Seq<OutlineView> {
    rows.map_values(|row: OutlineRow| row@)
}

/// The row of an entry.
#[must_use]
pub fn outline_row(graph: &FileGraph, id: EntryId, depth: usize) -> (r: Option<OutlineRow>)
    requires
        graph.wf(),
    ensures
        r is Some == (id.0 < graph@.len()),
        r matches Some(row) ==> row@ == outline_of(graph@, Line { id: id.0, depth: depth as nat }),
{
    match (graph.entry(id), graph.stats(id), graph.name(id), graph.reconstruct_path(id)) {
        (Some(entry), Some(stats), Some(name), Some(path_text)) => {
            let kind = if entry.flags.contains(EntryFlags::DIRECTORY) {
                "dir"
            } else if entry.flags.contains(EntryFlags::SYMLINK) {
                "link"
            } else {
                "file"
            };
            Some(
                OutlineRow {
                    id,
                    name: name.to_owned(),
                    path_text,
                    depth,
                    kind,
                    size: stats.total_size.bytes(),
                    allocated: stats.total_allocated.bytes(),
                },
            )
        },
        _ => None,
    }
}

/// The lines of the whole tree below these roots.
pub open spec fn whole_tree(g: Seq<EntryView>, index: TreeView) -> Seq<Line> {
    all_lines(g, index, Set::full(), None)
}

struct Outline<'a> {
    graph: &'a FileGraph,
    index: &'a TreeIndex,
    limit: usize,
}

struct Gathered {
    rows: Vec<OutlineRow>,
    lines: Ghost<Seq<Line>>,
}

proof fn lemma_view_is_full(lines: Seq<Line>, more: Seq<Line>, limit: nat)
    requires
        lines.len() >= limit,
    ensures
        in_view(lines + more, 0, limit) == in_view(lines, 0, limit),
{
    assert(in_view(lines + more, 0, limit) =~= in_view(lines, 0, limit));
}

impl<'a> Outline<'a> {
    spec fn wf(&self) -> bool {
        &&& self.graph.wf()
        &&& self.index.wf()
        &&& is_walkable(self.graph@, self.index@)
    }

    spec fn reached(&self, gathered: Gathered) -> bool {
        outlines_view(gathered.rows@) == outlines_of(
            self.graph@,
            in_view(gathered.lines@, 0, self.limit as nat),
        )
    }

    spec fn below(&self, id: u32, depth: nat) -> Seq<Line> {
        lines_from(self.graph@, self.index@.below, Set::full(), None, id, depth)
    }

    fn append_tree_rows(&self, gathered: &mut Gathered, id: EntryId, depth: usize)
        requires
            self.wf(),
            self.reached(*old(gathered)),
            id.0 < self.graph@.len(),
            depth <= id.0,
        ensures
            self.reached(*final(gathered)),
            final(gathered).lines@ == old(gathered).lines@ + self.below(id.0, depth as nat),
        decreases self.graph@.len() - id.0,
    {
        let ghost g = self.graph@;
        let ghost below = self.index@.below;
        let ghost start = gathered.lines@;
        let ghost whole = self.below(id.0, depth as nat);
        assert(outlines_view(gathered.rows@).len() == gathered.rows@.len());
        if gathered.rows.len() >= self.limit {
            proof {
                lemma_view_is_full(start, whole, self.limit as nat);
            }
            gathered.lines = Ghost(start + whole);
            return;
        }
        let ghost line = Line { id: id.0, depth: depth as nat };
        let ghost shown = gathered.rows@;
        if let Some(row) = outline_row(self.graph, id, depth) {
            gathered.rows.push(row);
            assert(outlines_view(gathered.rows@) =~= outlines_view(shown).push(row@));
        }
        gathered.lines = Ghost(start.push(line));
        proof {
            let view = in_view(start, 0, self.limit as nat);
            assert(in_view(start.push(line), 0, self.limit as nat) =~= view.push(line));
            assert(outlines_of(g, view.push(line)) =~= outlines_of(g, view).push(outline_of(g, line)));
        }
        let listed = self.index.children(id);
        let ghost ids = below[id.0 as int];
        assert forall|k: int| 0 <= k < ids.len() implies id.0 < #[trigger] ids[k] && ids[k] < g.len() by {}
        let mut i: usize = 0;
        assert(ids.take(0) =~= Seq::<u32>::empty());
        assert(gathered.lines@ =~= start + seq![line] + lines_of_all(
            g,
            below,
            Set::full(),
            None,
            ids.take(0),
            (depth + 1) as nat,
            id.0 as int,
        ));
        while i < listed.len()
            invariant
                self.wf(),
                self.reached(*gathered),
                g == self.graph@,
                below == self.index@.below,
                ids == raw_ids(listed@),
                i <= listed@.len(),
                depth <= id.0,
                id.0 < g.len(),
                forall|k: int|
                    0 <= k < ids.len() ==> id.0 < #[trigger] ids[k] && ids[k] < g.len(),
                gathered.lines@ == start + seq![line] + lines_of_all(
                    g,
                    below,
                    Set::full(),
                    None,
                    ids.take(i as int),
                    (depth + 1) as nat,
                    id.0 as int,
                ),
            decreases listed@.len() - i,
        {
            let child = listed[i];
            assert(ids[i as int] == child.0);
            self.append_tree_rows(gathered, child, depth + 1);
            i += 1;
            proof {
                assert(ids.take(i as int).drop_last() =~= ids.take(i - 1));
                assert(ids.take(i as int).last() == child.0);
                let earlier = lines_of_all(
                    g,
                    below,
                    Set::full(),
                    None,
                    ids.take(i - 1),
                    (depth + 1) as nat,
                    id.0 as int,
                );
                let next = self.below(child.0, (depth + 1) as nat);
                assert((start + seq![line] + earlier) + next =~= start + seq![line] + (earlier + next));
            }
        }
        assert(ids.take(ids.len() as int) =~= ids);
        assert(gathered.lines@ =~= start + whole);
    }
}

/// Whether these rows are the first of the whole tree, the largest first: at most `limit`.
pub open spec fn are_tree_rows(g: Seq<EntryView>, limit: nat, rows: Seq<OutlineView>) -> bool {
    exists|index: TreeView|
        {
            &&& #[trigger] indexes(g, largest_totals_first(), index)
            &&& is_sorted(g, largest_totals_first(), root_ids(g), index.roots)
            &&& rows == outlines_of(g, in_view(whole_tree(g, index), 0, limit))
        }
}

/// The first `limit` rows of the whole tree, with the largest first at every level.
#[must_use]
pub fn tree_rows_from_graph(graph: &FileGraph, limit: usize) -> (r: Vec<OutlineRow>)
    requires
        graph.wf(),
    ensures
        are_tree_rows(graph@, limit as nat, outlines_view(r@)),
{
    let ghost g = graph@;
    let index = TreeIndex::build_by_total_size(graph);
    let outline = Outline { graph, index: &index, limit };
    let mut gathered = Gathered { rows: Vec::new(), lines: Ghost(Seq::empty()) };
    let ghost below = index@.below;
    let ghost roots = index@.roots;
    proof {
        assert(in_view(Seq::<Line>::empty(), 0, limit as nat) =~= Seq::<Line>::empty());
        assert(outlines_view(gathered.rows@) =~= outlines_of(g, Seq::<Line>::empty()));
        assert(roots.take(0) =~= Seq::<u32>::empty());
    }
    let mut i: usize = 0;
    while i < index.roots.len()
        invariant
            outline.wf(),
            outline.reached(gathered),
            outline.graph == graph,
            outline.index == &index,
            outline.limit == limit,
            g == graph@,
            below == index@.below,
            roots == raw_ids(index.roots@),
            all_entries(g, roots),
            i <= index.roots@.len(),
            gathered.lines@ == lines_of_all(g, below, Set::full(), None, roots.take(i as int), 0, -1),
        decreases index.roots@.len() - i,
    {
        let root = index.roots[i];
        assert(roots[i as int] == root.0);
        outline.append_tree_rows(&mut gathered, root, 0);
        i += 1;
        proof {
            assert(roots.take(i as int).drop_last() =~= roots.take(i - 1));
            assert(roots.take(i as int).last() == root.0);
        }
    }
    assert(roots.take(roots.len() as int) =~= roots);
    assert(indexes(g, largest_totals_first(), index@));
    gathered.rows
}

// ---------------------------------------------------------------------------------------------
// What a filter finds
// ---------------------------------------------------------------------------------------------

/// A row of the list of what was found.
#[derive(Debug)]
pub struct ResultRow {
    pub path_text: String,
    pub kind: &'static str,
    pub size: u64,
    pub allocated: u64,
    pub modified_unix: i64,
}

/// What a row of the list shows.
pub struct ResultView {
    pub path_text: Seq<char>,
    pub kind: Seq<char>,
    pub size: u64,
    pub allocated: u64,
    pub modified_unix: i64,
}

impl View for ResultRow {
    type V = ResultView;

    open spec fn view(&self) -> ResultView {
        ResultView {
            path_text: self.path_text@,
            kind: self.kind@,
            size: self.size,
            allocated: self.allocated,
            modified_unix: self.modified_unix,
        }
    }
}

/// The row of entry `i`.
pub open spec fn result_of(g: Seq<EntryView>, i: u32) -> ResultView {
    ResultView {
        path_text: path_of(g, i as int),
        kind: if is_directory(g[i as int].flags) {
            "dir"@
        } else {
            "file"@
        },
        size: total_size(g, i as int),
        allocated: total_allocated(g, i as int),
        modified_unix: g[i as int].modified,
    }
}

/// What the rows show.
pub open spec fn results_view(rows: Seq<ResultRow>) -> Seq<ResultView> {
    rows.map_values(|row: ResultRow| row@)
}

/// What a filter found: how much, and the largest of it.
#[derive(Debug)]
pub struct FilteredRows {
    pub matched: usize,
    pub rows: Vec<ResultRow>,
}

/// Whether this is what the filter finds in the graph.
pub open spec fn is_found_by(
    found: FilteredRows,
    g: Seq<EntryView>,
    filter: QueryFilter,
    limit: nat,
) -> bool {
    &&& found.matched == passing(filter, g).len()
    &&& exists|ids: Seq<u32>| #[trigger]
        is_top(g, OrderKey::TotalSize, passing(filter, g), limit as int, ids) && results_view(
            found.rows@,
        ) == ids.map_values(|i: u32| result_of(g, i))
}

fn result_row(graph: &FileGraph, id: EntryId) -> (r: Option<ResultRow>)
    requires
        graph.wf(),
    ensures
        r is Some == (id.0 < graph@.len()),
        r matches Some(row) ==> row@ == result_of(graph@, id.0),
{
    match (graph.entry(id), graph.stats(id), graph.reconstruct_path(id)) {
        (Some(entry), Some(stats), Some(path_text)) => Some(
            ResultRow {
                path_text,
                kind: if entry.flags.contains(EntryFlags::DIRECTORY) {
                    "dir"
                } else {
                    "file"
                },
                size: stats.total_size.bytes(),
                allocated: stats.total_allocated.bytes(),
                modified_unix: entry.modified_unix,
            },
        ),
        _ => None,
    }
}

/// What a filter finds in a graph: how many entries, and the `limit` largest.
#[must_use]
pub fn rows_found(graph: &FileGraph, filter: &CompiledFilter, limit: usize) -> (r: FilteredRows)
    requires
        graph.wf(),
    ensures
        is_found_by(r, graph@, filter@, limit as nat),
{
    let ghost g = graph@;
    let matching = filter.matching_ids(graph);
    let ids = top_entries_by_total_size(graph, &matching, limit);
    let ghost raw = raw_ids(ids@);
    let ghost shown = raw.map_values(|i: u32| result_of(g, i));
    proof {
        graph.lemma_wf();
        the_top_is_picked(g, OrderKey::TotalSize, passing(filter@, g), limit as int, raw);
        select_picks(g.len(), |i: int| passes(filter@, g, i));
        assert forall|k: int| 0 <= k < ids@.len() implies (#[trigger] ids@[k]).0 < g.len() by {
            assert(raw[k] == ids@[k].0);
            assert(passing(filter@, g).contains(raw[k]));
        }
    }
    let mut rows: Vec<ResultRow> = Vec::new();
    let mut k: usize = 0;
    assert(results_view(rows@) =~= shown.take(0));
    while k < ids.len()
        invariant
            graph.wf(),
            g == graph@,
            k <= ids@.len(),
            raw == raw_ids(ids@),
            shown == raw.map_values(|i: u32| result_of(g, i)),
            forall|k: int| 0 <= k < ids@.len() ==> (#[trigger] ids@[k]).0 < g.len(),
            results_view(rows@) == shown.take(k as int),
        decreases ids@.len() - k,
    {
        let ghost before = rows@;
        assert(raw[k as int] == ids@[k as int].0);
        if let Some(row) = result_row(graph, ids[k]) {
            rows.push(row);
            assert(results_view(rows@) =~= results_view(before).push(row@));
        }
        k += 1;
        assert(shown.take(k as int) =~= shown.take(k - 1).push(shown[k - 1]));
    }
    assert(shown.take(shown.len() as int) =~= shown);
    assert(raw_ids(matching@).len() == matching@.len());
    FilteredRows { matched: matching.len(), rows }
}

/// What the filter that the fields make finds in a graph.
pub fn filtered_rows_from_graph(graph: &FileGraph, filters: &FilterInputs, limit: usize) -> (r: Result<
    FilteredRows,
    InputError,
>)
    requires
        graph.wf(),
    ensures
        match r {
            Ok(found) => exists|filter: QueryFilter|
                {
                    &&& #[trigger] asks_for(filter, filters@)
                    &&& is_matcher_for(filter.name, filters@.name, filters@.regex)
                    &&& is_matcher_for(filter.path, filters@.path, filters@.regex)
                    &&& is_found_by(found, graph@, filter, limit as nat)
                },
            Err(InputError::Message(message)) => first_complaint(filters@) == Some(message@),
            Err(InputError::Pattern(_)) => filters@.regex && (field_text(filters@.name) is Some
                || field_text(filters@.path) is Some),
        },
{
    let filter = filters.query_filter()?;
    let ghost asked = filter;
    match filter.compile() {
        Ok(compiled) => {
            let found = rows_found(graph, &compiled, limit);
            assert(asks_for(asked, filters@));
            Ok(found)
        },
        Err(error) => Err(InputError::Pattern(error)),
    }
}

// ---------------------------------------------------------------------------------------------
// Duplicates
// ---------------------------------------------------------------------------------------------

/// Files that may hold the same, and how much room the copies take.
#[derive(Debug)]
pub struct DuplicateGroup {
    pub name: String,
    pub size: u64,
    pub modified_unix: i64,
    pub count: usize,
    pub wasted_bytes: u64,
    pub paths: Vec<String>,
}

/// Files that may hold the same, and how much room the copies take.
pub struct GroupView {
    pub key: DuplicateKey,
    pub count: nat,
    pub wasted_bytes: u64,
    pub paths: Seq<Seq<char>>,
}

impl View for DuplicateGroup {
    type V = GroupView;

    open spec fn view(&self) -> GroupView {
        GroupView {
            key: DuplicateKey { size: self.size, name: self.name@, modified: self.modified_unix },
            count: self.count as nat,
            wasted_bytes: self.wasted_bytes,
            paths: strings_view(self.paths@),
        }
    }
}

/// The room that all but one of the candidates take, as far as the number fits.
pub open spec fn wasted(candidate: CandidateView) -> u64 {
    capped(
        (candidate.key.size * if candidate.entries.len() > 0 {
            candidate.entries.len() - 1
        } else {
            0
        }) as nat,
        u64::MAX as nat,
    ) as u64
}

/// The room that all but one of the candidates take, as far as the number fits.
#[must_use]
pub fn duplicate_wasted_bytes(candidate: &DuplicateCandidate) -> (r: u64)
    ensures
        r == wasted(candidate@),
{
    assert(candidate@.entries.len() == candidate.entries@.len());
    let copies: usize = if candidate.entries.len() > 0 {
        candidate.entries.len() - 1
    } else {
        0
    };
    proof {
        let size = candidate.size as int;
        assert(0 <= size * copies) by (nonlinear_arith)
            requires
                0 <= size,
                0 <= copies,
        ;
    }
    match candidate.size.checked_mul(copies as u64) {
        Some(n) => n,
        None => u64::MAX,
    }
}

/// Whether candidates are listed before others: those that waste more, then the larger, then by name
/// and by time.
pub open spec fn wastes_more(a: CandidateView, b: CandidateView) -> bool {
    if wasted(a) != wasted(b) {
        wasted(a) > wasted(b)
    } else if a.key.size != b.key.size {
        a.key.size > b.key.size
    } else if a.key.name != b.key.name {
        text_before(a.key.name, b.key.name)
    } else {
        a.key.modified < b.key.modified
    }
}

/// Whether the list holds the groups of files that share their key, each once, those that waste more
/// first.
pub open spec fn lists_by_waste(g: Seq<EntryView>, groups: Seq<CandidateView>) -> bool {
    &&& forall|k: int|
        0 <= k < groups.len() ==> (#[trigger] groups[k]).entries == files_with(g, groups[k].key)
            && groups[k].entries.len() > 1
    &&& forall|key: DuplicateKey|
        (#[trigger] files_with(g, key)).len() > 1 ==> exists|k: int|
            0 <= k < groups.len() && (#[trigger] groups[k]).key == key
    &&& forall|j: int, k: int|
        0 <= j < k < groups.len() ==> wastes_more(#[trigger] groups[j], #[trigger] groups[k])
}

struct WasteRanking<'a> {
    candidates: &'a Vec<DuplicateCandidate>,
}

proof fn lemma_waste_order(a: CandidateView, b: CandidateView, c: CandidateView)
    ensures
        !(wastes_more(a, b) && wastes_more(b, a)),
        !wastes_more(b, a) && !wastes_more(c, b) ==> !wastes_more(c, a),
        a.key != b.key ==> wastes_more(a, b) || wastes_more(b, a),
{
    text_order_is_total(a.key.name, b.key.name);
    text_order_is_total(b.key.name, c.key.name);
    text_order_is_total(a.key.name, c.key.name);
    if text_before(c.key.name, a.key.name) && text_before(a.key.name, b.key.name) {
        text_order_is_transitive(c.key.name, a.key.name, b.key.name);
    }
    if text_before(b.key.name, c.key.name) && text_before(c.key.name, a.key.name) {
        text_order_is_transitive(b.key.name, c.key.name, a.key.name);
    }
}

impl<'a> Ranking for WasteRanking<'a> {
    closed spec fn knows(&self, a: u32) -> bool {
        a < self.candidates@.len()
    }

    closed spec fn at_most(&self, a: u32, b: u32) -> bool {
        !wastes_more(self.candidates@[b as int]@, self.candidates@[a as int]@)
    }

    proof fn total(&self, a: u32, b: u32) {
        let x = self.candidates@[a as int]@;
        lemma_waste_order(x, self.candidates@[b as int]@, x);
    }

    proof fn transitive(&self, a: u32, b: u32, c: u32) {
        lemma_waste_order(
            self.candidates@[a as int]@,
            self.candidates@[b as int]@,
            self.candidates@[c as int]@,
        );
    }

    fn in_order(&self, a: u32, b: u32) -> (r: bool) {
        let first = &self.candidates[a as usize];
        let second = &self.candidates[b as usize];
        proof {
            text_order_is_total(first.name@, second.name@);
        }
        let first_waste = duplicate_wasted_bytes(first);
        let second_waste = duplicate_wasted_bytes(second);
        if first_waste != second_waste {
            return first_waste > second_waste;
        }
        if first.size != second.size {
            return first.size > second.size;
        }
        if is_text_before(&first.name, &second.name) {
            return true;
        }
        if is_text_before(&second.name, &first.name) {
            return false;
        }
        first.modified_unix <= second.modified_unix
    }
}

/// The paths of the first `n` of these entries; one that is not in the graph has none.
pub open spec fn first_paths(g: Seq<EntryView>, ids: Seq<u32>, n: nat) -> Seq<Seq<char>>
    decreases n,
{
    if n == 0 {
        Seq::empty()
    } else if ids[n - 1] < g.len() {
        first_paths(g, ids, (n - 1) as nat).push(path_of(g, ids[n - 1] as int))
    } else {
        first_paths(g, ids, (n - 1) as nat)
    }
}

/// The paths of the first of these entries, of at most so many.
pub open spec fn paths_of(g: Seq<EntryView>, ids: Seq<u32>, limit: nat) -> Seq<Seq<char>> {
    first_paths(
        g,
        ids,
        if limit < ids.len() {
            limit
        } else {
            ids.len()
        },
    )
}

/// The group of these candidates.
pub open spec fn group_of(g: Seq<EntryView>, candidate: CandidateView, path_limit: nat) -> GroupView {
    GroupView {
        key: candidate.key,
        count: candidate.entries.len(),
        wasted_bytes: wasted(candidate),
        paths: paths_of(g, candidate.entries, path_limit),
    }
}

fn paths_of_entries(graph: &FileGraph, entries: &Vec<EntryId>, limit: usize) -> (r: Vec<String>)
    requires
        graph.wf(),
    ensures
        strings_view(r@) == paths_of(graph@, raw_ids(entries@), limit as nat),
{
    let ghost g = graph@;
    let ghost ids = raw_ids(entries@);
    let mut r: Vec<String> = Vec::new();
    let mut k: usize = 0;
    assert(strings_view(r@) =~= first_paths(g, ids, 0));
    while k < entries.len() && k < limit
        invariant
            graph.wf(),
            g == graph@,
            ids == raw_ids(entries@),
            k <= entries@.len(),
            k <= limit,
            strings_view(r@) == first_paths(g, ids, k as nat),
        decreases entries@.len() - k,
    {
        let ghost before = r@;
        assert(ids[k as int] == entries@[k as int].0);
        if let Some(path) = graph.reconstruct_path(entries[k]) {
            r.push(path);
            assert(strings_view(r@) =~= strings_view(before).push(path@));
        }
        k += 1;
    }
    r
}

/// What the groups show.
pub open spec fn groups_view(groups: Seq<DuplicateGroup>) -> Seq<GroupView> {
    groups.map_values(|group: DuplicateGroup| group@)
}

/// The group of these candidates, with at most so many paths.
#[must_use]
pub fn duplicate_group_from_candidate(
    graph: &FileGraph,
    candidate: &DuplicateCandidate,
    path_limit: usize,
) -> (r: DuplicateGroup)
    requires
        graph.wf(),
    ensures
        r@ == group_of(graph@, candidate@, path_limit as nat),
{
    assert(candidate@.entries.len() == candidate.entries@.len());
    DuplicateGroup {
        name: candidate.name.clone(),
        size: candidate.size,
        modified_unix: candidate.modified_unix,
        count: candidate.entries.len(),
        wasted_bytes: duplicate_wasted_bytes(candidate),
        paths: paths_of_entries(graph, &candidate.entries, path_limit),
    }
}

proof fn lemma_ranked_groups(
    g: Seq<EntryView>,
    candidates: Seq<DuplicateCandidate>,
    places: Seq<u32>,
    sorted: Seq<u32>,
    ranking: &WasteRanking,
)
    requires
        ranking.candidates@ == candidates,
        candidates.len() <= u32::MAX + 1,
        places == Seq::new(candidates.len(), |k: int| k as u32),
        is_ranking_of(ranking, places, sorted),
        lists_duplicates(g, candidates_view(candidates)),
    ensures
        forall|m: int| 0 <= m < sorted.len() ==> (#[trigger] sorted[m]) < candidates.len(),
        lists_by_waste(g, Seq::new(sorted.len(), |k: int| candidates[sorted[k] as int]@)),
{
    let listed = candidates_view(candidates);
    lemma_same_members(places, sorted);
    assert forall|m: int| 0 <= m < sorted.len() implies (#[trigger] sorted[m]) < candidates.len() by {
        assert(sorted.contains(sorted[m]));
        assert(places.contains(sorted[m]));
    }
    let all = Seq::new(sorted.len(), |k: int| candidates[sorted[k] as int]@);
    assert forall|k: int| 0 <= k < all.len() implies (#[trigger] all[k]).entries == files_with(
        g,
        all[k].key,
    ) && all[k].entries.len() > 1 by {
        assert(listed[sorted[k] as int] == all[k]);
    }
    assert forall|key: DuplicateKey| (#[trigger] files_with(g, key)).len() > 1 implies exists|k: int|
        0 <= k < all.len() && (#[trigger] all[k]).key == key by {
        let at = choose|at: int| 0 <= at < listed.len() && (#[trigger] listed[at]).key == key;
        assert(places[at] == at as u32);
        assert(places.contains(at as u32));
        assert(sorted.contains(at as u32));
        let k = choose|k: int| 0 <= k < sorted.len() && sorted[k] == at as u32;
        assert(all[k] == listed[at]);
    }
    assert(sorted.no_duplicates()) by {
        assert(places.no_duplicates());
        places.lemma_multiset_has_no_duplicates();
        sorted.lemma_multiset_has_no_duplicates_conv();
    }
    assert forall|j: int, k: int| 0 <= j < k < all.len() implies wastes_more(
        #[trigger] all[j],
        #[trigger] all[k],
    ) by {
        assert(ranking.at_most(sorted[j], sorted[k]));
        let x = sorted[j] as int;
        let y = sorted[k] as int;
        assert(x != y);
        assert(listed[x].key != listed[y].key) by {
            crate::candidates::lemma_key_order(listed[x].key, listed[y].key, listed[x].key);
            if x < y {
                assert(crate::candidates::key_before(listed[x].key, listed[y].key));
            } else {
                assert(crate::candidates::key_before(listed[y].key, listed[x].key));
            }
        }
        assert(listed[x] == all[j] && listed[y] == all[k]);
        lemma_waste_order(all[j], all[k], all[j]);
    }
}

/// Whether these are the groups of duplicates that waste most: at most `group_limit`, each with at
/// most `path_limit` paths.
pub open spec fn are_groups(
    g: Seq<EntryView>,
    group_limit: nat,
    path_limit: nat,
    shown: Seq<GroupView>,
) -> bool {
    exists|groups: Seq<CandidateView>| #[trigger]
        lists_by_waste(g, groups) && shown == groups.take(
            if group_limit < groups.len() {
                group_limit as int
            } else {
                groups.len() as int
            },
        ).map_values(|group: CandidateView| group_of(g, group, path_limit))
}

/// The groups of duplicates, those that waste most first: at most `group_limit`, each with at most
/// `path_limit` paths.
#[must_use]
pub fn duplicate_groups_from_graph(graph: &FileGraph, group_limit: usize, path_limit: usize) -> (r: Vec<
    DuplicateGroup,
>)
    requires
        graph.wf(),
    ensures
        are_groups(graph@, group_limit as nat, path_limit as nat, groups_view(r@)),
{
    let ghost g = graph@;
    proof {
        graph.lemma_wf();
    }
    let candidates = find_duplicate_candidates(graph);
    let n = candidates.len();
    proof {
        crate::candidates::lemma_few_candidates(g, candidates_view(candidates@));
        assert(candidates_view(candidates@).len() == candidates@.len());
    }
    let mut places: Vec<u32> = Vec::new();
    let mut i: usize = 0;
    while i < n
        invariant
            n == candidates@.len(),
            n <= u32::MAX + 1,
            i <= n,
            places@ == Seq::new(i as nat, |k: int| k as u32),
        decreases n - i,
    {
        places.push(i as u32);
        i += 1;
    }
    let ranking = WasteRanking { candidates: &candidates };
    let sorted = sort_ids(&ranking, &places);
    let ghost all = Seq::new(sorted@.len(), |k: int| candidates@[sorted@[k] as int]@);
    let ghost shown = all.map_values(
        |group: CandidateView| group_of(g, group, path_limit as nat),
    );
    proof {
        lemma_ranked_groups(g, candidates@, places@, sorted@, &ranking);
    }
    let mut r: Vec<DuplicateGroup> = Vec::new();
    let mut k: usize = 0;
    assert(groups_view(r@) =~= shown.take(0));
    while k < sorted.len() && k < group_limit
        invariant
            graph.wf(),
            g == graph@,
            g.len() <= u32::MAX + 1,
            k <= sorted@.len(),
            k <= group_limit,
            all == Seq::new(sorted@.len(), |k: int| candidates@[sorted@[k] as int]@),
            shown == all.map_values(
                |group: CandidateView| group_of(g, group, path_limit as nat),
            ),
            lists_by_waste(g, all),
            forall|m: int| 0 <= m < sorted@.len() ==> (#[trigger] sorted@[m]) < candidates@.len(),
            groups_view(r@) == shown.take(k as int),
        decreases sorted@.len() - k,
    {
        let ghost before = r@;
        let candidate = &candidates[sorted[k] as usize];
        assert(all[k as int] == candidate@);
        let group = duplicate_group_from_candidate(graph, candidate, path_limit);
        r.push(group);
        k += 1;
        assert(groups_view(r@) =~= groups_view(before).push(group@));
        assert(shown.take(k as int) =~= shown.take(k - 1).push(shown[k - 1]));
    }
    assert(shown.take(k as int) =~= all.take(k as int).map_values(
        |group: CandidateView| group_of(g, group, path_limit as nat),
    ));
    r
}

/// There is only one list of the duplicates of a graph with those that waste more first.
pub proof fn groups_are_listed_one_way(
    g: Seq<EntryView>,
    a: Seq<CandidateView>,
    b: Seq<CandidateView>,
)
    requires
        lists_by_waste(g, a),
        lists_by_waste(g, b),
    ensures
        a == b,
{
    let before = |x: CandidateView, y: CandidateView| wastes_more(x, y);
    lemma_listed_in_both(g, a, b);
    lemma_listed_in_both(g, b, a);
    assert forall|x: CandidateView, y: CandidateView| #[trigger] before(x, y) implies !before(
        y,
        x,
    ) by {
        lemma_waste_order(x, y, x);
    }
    lemma_one_list(a, b, before);
}

proof fn lemma_listed_in_both(g: Seq<EntryView>, a: Seq<CandidateView>, b: Seq<CandidateView>)
    requires
        lists_by_waste(g, a),
        lists_by_waste(g, b),
    ensures
        forall|x: CandidateView| a.contains(x) ==> b.contains(x),
{
    assert forall|x: CandidateView| a.contains(x) implies b.contains(x) by {
        let k = choose|k: int| 0 <= k < a.len() && a[k] == x;
        assert(files_with(g, a[k].key).len() > 1);
        let m = choose|m: int| 0 <= m < b.len() && (#[trigger] b[m]).key == x.key;
        assert(b[m].entries == files_with(g, b[m].key));
        assert(b[m] == x);
    }
}

/// A row of the tree shows its entry under its own name, with the sums over all that lies below it as
/// far as they can be counted. A directory is told by the first mark, a link by the second.
pub proof fn an_outline_shows_its_entry(g: Seq<EntryView>, line: Line)
    requires
        line.id < g.len(),
    ensures
        ({
            let row = outline_of(g, line);
            let i = line.id as int;
            let flags = g[i].flags;
            &&& row.id == line.id
            &&& row.depth == line.depth
            &&& row.name == g[i].name
            &&& row.path_text == path_of(g, i)
            &&& row.size == capped(
                subtree_sum(g, i, |j: int| g[j].size as nat, g.len() as int),
                u64::MAX as nat,
            )
            &&& row.allocated == capped(
                subtree_sum(g, i, |j: int| g[j].allocated as nat, g.len() as int),
                u64::MAX as nat,
            )
            &&& row.kind == if flags % 2 == 1 {
                "dir"@
            } else if (flags / 2) % 2 == 1 {
                "link"@
            } else {
                "file"@
            }
        }),
{
    let flags = g[line.id as int].flags;
    the_first_mark_makes_a_directory(flags);
    assert((flags & 2 == 2) == ((flags / 2) % 2 == 1)) by (bit_vector);
}

/// What a filter found is as many entries as pass it. The rows are entries that pass, as many as were
/// asked for or all of them, with the sums over all that lies below them; their sizes never grow down
/// the list, and none that was left out is larger.
pub proof fn results_are_the_largest_that_pass(
    found: FilteredRows,
    g: Seq<EntryView>,
    filter: QueryFilter,
    limit: nat,
)
    requires
        g.len() <= u32::MAX + 1,
        is_found_by(found, g, filter, limit),
    ensures
        found.matched == passing(filter, g).len(),
        found.rows@.len() == if limit < found.matched {
            limit
        } else {
            found.matched as nat
        },
        exists|ids: Seq<u32>| #[trigger] shows_entries(results_view(found.rows@), g, ids)
            && forall|k: int| 0 <= k < ids.len() ==> passes(filter, g, #[trigger] ids[k] as int),
        forall|j: int, k: int|
            0 <= j < k < found.rows@.len() ==> (#[trigger] found.rows@[j]).size
                >= (#[trigger] found.rows@[k]).size,
{
    let all = passing(filter, g);
    let rows = results_view(found.rows@);
    let ids = choose|ids: Seq<u32>| #[trigger]
        is_top(g, OrderKey::TotalSize, all, limit as int, ids) && rows == ids.map_values(
            |i: u32| result_of(g, i),
        );
    a_search_lists_what_passes(filter, g);
    the_top_is_picked(g, OrderKey::TotalSize, all, limit as int, ids);
    nothing_larger_is_left_out(g, all, limit as int, ids, false);
    assert(rows.len() == found.rows@.len());
    assert forall|k: int| 0 <= k < ids.len() implies ids[k] < g.len() && passes(
        filter,
        g,
        #[trigger] ids[k] as int,
    ) by {
        assert(all.contains(ids[k]));
    }
    assert forall|k: int| 0 <= k < rows.len() implies #[trigger] shows_entry(
        rows[k],
        g,
        ids[k] as int,
    ) by {
        assert(all.contains(ids[k]));
        the_first_mark_makes_a_directory(g[ids[k] as int].flags);
    }
    assert(shows_entries(rows, g, ids));
    assert forall|j: int, k: int| 0 <= j < k < found.rows@.len() implies (
    #[trigger] found.rows@[j]).size >= (#[trigger] found.rows@[k]).size by {
        assert(rows[j].size == found.rows@[j].size);
        assert(rows[k].size == found.rows@[k].size);
        assert(size_that_counts(g, ids[j] as int, false) >= size_that_counts(
            g,
            ids[k] as int,
            false,
        ));
        assert(shows_entry(rows[j], g, ids[j] as int));
        assert(shows_entry(rows[k], g, ids[k] as int));
    }
}

/// Whether a row of the list shows entry `i`: its path, what it is, the sums over all that lies below
/// it as far as they can be counted, and the time of its last change.
pub open spec fn shows_entry(row: ResultView, g: Seq<EntryView>, i: int) -> bool {
    &&& 0 <= i < g.len()
    &&& row.path_text == path_of(g, i)
    &&& row.kind == if g[i].flags % 2 == 1 {
        "dir"@
    } else {
        "file"@
    }
    &&& row.size == capped(
        subtree_sum(g, i, |j: int| g[j].size as nat, g.len() as int),
        u64::MAX as nat,
    )
    &&& row.allocated == capped(
        subtree_sum(g, i, |j: int| g[j].allocated as nat, g.len() as int),
        u64::MAX as nat,
    )
    &&& row.modified_unix == g[i].modified
}

/// Whether the rows show these entries, one each.
pub open spec fn shows_entries(rows: Seq<ResultView>, g: Seq<EntryView>, ids: Seq<u32>) -> bool {
    &&& rows.len() == ids.len()
    &&& forall|k: int| 0 <= k < rows.len() ==> #[trigger] shows_entry(rows[k], g, ids[k] as int)
}

/// What these entries have in them together.
pub open spec fn size_of_all(g: Seq<EntryView>, ids: Seq<u32>) -> nat
    decreases ids.len(),
{
    if ids.len() == 0 {
        0
    } else {
        size_of_all(g, ids.drop_last()) + g[ids.last() as int].size as nat
    }
}

proof fn lemma_size_of_all(g: Seq<EntryView>, ids: Seq<u32>, size: u64)
    requires
        forall|k: int| 0 <= k < ids.len() ==> g[#[trigger] ids[k] as int].size == size,
    ensures
        size_of_all(g, ids) == size * ids.len(),
    decreases ids.len(),
{
    if ids.len() > 0 {
        let shorter = ids.drop_last();
        assert forall|k: int| 0 <= k < shorter.len() implies g[#[trigger] shorter[k] as int].size
            == size by {
            assert(shorter[k] == ids[k]);
        }
        lemma_size_of_all(g, shorter, size);
        assert(g[ids[ids.len() - 1] as int].size == size);
        assert(size * (ids.len() - 1) + size == size * ids.len()) by (nonlinear_arith);
    } else {
        assert(size * 0 == 0) by (nonlinear_arith);
    }
}

proof fn lemma_paths(g: Seq<EntryView>, ids: Seq<u32>, n: nat)
    requires
        n <= ids.len(),
        forall|k: int| 0 <= k < ids.len() ==> #[trigger] ids[k] < g.len(),
    ensures
        first_paths(g, ids, n).len() == n,
        forall|k: int|
            0 <= k < n ==> #[trigger] first_paths(g, ids, n)[k] == path_of(g, ids[k] as int),
    decreases n,
{
    if n > 0 {
        lemma_paths(g, ids, (n - 1) as nat);
    }
}

/// A group tells how many files it holds, where the first of them lie, and what could be freed: with
/// all but one of its files gone, what is left of their sizes is one of them.
pub proof fn a_group_tells_what_could_be_freed(
    g: Seq<EntryView>,
    groups: Seq<CandidateView>,
    k: int,
    path_limit: nat,
)
    requires
        g.len() <= u32::MAX + 1,
        lists_by_waste(g, groups),
        0 <= k < groups.len(),
    ensures
        ({
            let ids = groups[k].entries;
            let shown = group_of(g, groups[k], path_limit);
            &&& ids.len() >= 2
            &&& forall|j: int| #![trigger ids[j]]
                0 <= j < ids.len() ==> ids[j] < g.len() && g[ids[j] as int].size == shown.key.size
                    && g[ids[j] as int].modified == shown.key.modified
            &&& shown.count == ids.len()
            &&& size_of_all(g, ids) - shown.key.size <= u64::MAX ==> shown.wasted_bytes
                + shown.key.size == size_of_all(g, ids)
            &&& size_of_all(g, ids) - shown.key.size > u64::MAX ==> shown.wasted_bytes == u64::MAX
            &&& shown.paths.len() == if path_limit < ids.len() {
                path_limit
            } else {
                ids.len()
            }
            &&& forall|j: int|
                0 <= j < shown.paths.len() ==> #[trigger] shown.paths[j] == path_of(
                    g,
                    ids[j] as int,
                )
        }),
{
    let ids = groups[k].entries;
    let key = groups[k].key;
    let shared = |i: int| may_repeat(g, i) && duplicate_key(g, i) == key;
    select_picks(g.len(), shared);
    assert(ids == select(g.len(), shared));
    assert forall|j: int| #![trigger ids[j]] 0 <= j < ids.len() implies ids[j] < g.len()
        && g[ids[j] as int].size == key.size && g[ids[j] as int].modified == key.modified by {
        assert(shared(ids[j] as int));
    }
    lemma_size_of_all(g, ids, key.size);
    lemma_paths(
        g,
        ids,
        if path_limit < ids.len() {
            path_limit
        } else {
            ids.len()
        },
    );
    let size = key.size as int;
    let copies = ids.len() - 1;
    assert(size * copies + size == size * ids.len()) by (nonlinear_arith)
        requires
            copies == ids.len() - 1,
    ;
    assert(0 <= size * copies) by (nonlinear_arith)
        requires
            0 <= size,
            0 <= copies,
    ;
}

/// Down the list of groups what could be freed never grows, and no group that was left out could free
/// more.
pub proof fn what_could_be_freed_never_grows(g: Seq<EntryView>, groups: Seq<CandidateView>, j: int, k: int)
    requires
        lists_by_waste(g, groups),
        0 <= j < k < groups.len(),
    ensures
        group_of(g, groups[j], 0).wasted_bytes >= group_of(g, groups[k], 0).wasted_bytes,
        group_of(g, groups[j], 0).wasted_bytes == group_of(g, groups[k], 0).wasted_bytes
            ==> groups[j].key.size >= groups[k].key.size,
{
    assert(wastes_more(groups[j], groups[k]));
}

} // verus!
