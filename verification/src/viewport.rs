//! The rows of a tree that are in view.

use std::collections::HashSet;

use vstd::prelude::*;

use crate::graph::{capped, is_directory, path_of, raw_ids, subtree_sum,
    the_first_mark_makes_a_directory, total_allocated, total_size, EntryFlags, EntryId, EntryView,
    FileGraph};
use crate::text::{all_white, chars_of, contains, contains_char, contains_spec, is_white_space_spec,
    lower_all, occurs_at, to_ascii_lowercase, to_lowercase, trim, trim_spec, trimming_leaves_the_text,
    unicode_lowercase};
use crate::tree::{all_entries, is_walkable, TreeIndex, TreeView};
use crate::winpath::{file_name, file_name_spec};

verus! {

broadcast use vstd::std_specs::hash::group_hash_axioms;

/// How many rows a view gets that does not say how many it wants.
pub const DEFAULT_ROW_LIMIT: usize = 120;

/// How many rows a view gets at most.
pub const MAX_ROW_LIMIT: usize = 600;

/// How many rows a view gets that asked for so many: at least one, and no more than the most.
pub open spec fn limit_of(limit: Option<usize>) -> usize {
    match limit {
        None => DEFAULT_ROW_LIMIT,
        Some(n) => if n < 1 {
            1
        } else if n > MAX_ROW_LIMIT {
            MAX_ROW_LIMIT
        } else {
            n
        },
    }
}

/// How many rows a view gets that asked for so many; see [`limit_of`].
#[must_use]
pub fn normalized_limit(limit: Option<usize>) -> (r: usize)
    ensures
        r == limit_of(limit),
{
    match limit {
        None => DEFAULT_ROW_LIMIT,
        Some(n) => if n < 1 {
            1
        } else if n > MAX_ROW_LIMIT {
            MAX_ROW_LIMIT
        } else {
            n
        },
    }
}

// ---------------------------------------------------------------------------------------------
// The expanded entries
// ---------------------------------------------------------------------------------------------

/// The entries whose children are shown.
#[derive(Debug)]
pub struct ExpandedSet {
    ids: HashSet<u32>,
}

impl View for ExpandedSet {
    type V = Set<u32>;

    closed spec fn view(&self) -> Set<u32> {
        self.ids@
    }
}

impl ExpandedSet {
    /// No entry is expanded.
    #[must_use]
    pub fn new() -> (r: Self)
        ensures
            r@ == Set::<u32>::empty(),
    {
        ExpandedSet { ids: HashSet::new() }
    }

    /// Expands an entry; says whether it was not expanded before.
    pub fn insert(&mut self, id: EntryId) -> (r: bool)
        ensures
            final(self)@ == old(self)@.insert(id.0),
            r == !old(self)@.contains(id.0),
    {
        self.ids.insert(id.0)
    }

    /// Collapses an entry; says whether it was expanded before.
    pub fn remove(&mut self, id: EntryId) -> (r: bool)
        ensures
            final(self)@ == old(self)@.remove(id.0),
            r == old(self)@.contains(id.0),
    {
        self.ids.remove(&id.0)
    }

    /// Whether an entry is expanded.
    #[must_use]
    pub fn contains(&self, id: EntryId) -> (r: bool)
        ensures
            r == self@.contains(id.0),
    {
        self.ids.contains(&id.0)
    }

    /// Collapses every entry.
    pub fn clear(&mut self)
        ensures
            final(self)@ == Set::<u32>::empty(),
    {
        self.ids.clear();
    }

    /// Collapses every entry but these.
    pub fn reset_to(&mut self, ids: &Vec<EntryId>)
        ensures
            final(self)@ == raw_ids(ids@).to_set(),
    {
        self.clear();
        let mut i: usize = 0;
        while i < ids.len()
            invariant
                i <= ids@.len(),
                self@ == raw_ids(ids@.take(i as int)).to_set(),
            decreases ids@.len() - i,
        {
            let ghost shown = self@;
            let _ = self.insert(ids[i]);
            i += 1;
            proof {
                let longer = raw_ids(ids@.take(i as int));
                let shorter = raw_ids(ids@.take(i - 1));
                assert(longer =~= shorter.push(ids@[i - 1].0));
                assert(longer.to_set() =~= shorter.to_set().insert(ids@[i - 1].0)) by {
                    assert forall|x: u32| longer.to_set().contains(x) == shorter.to_set().insert(
                        ids@[i - 1].0,
                    ).contains(x) by {
                        if shorter.contains(x) {
                            let k = choose|k: int| 0 <= k < shorter.len() && shorter[k] == x;
                            assert(longer[k] == x);
                        }
                        assert(longer[longer.len() - 1] == ids@[i - 1].0);
                    }
                }
            }
        }
        assert(ids@.take(ids@.len() as int) =~= ids@);
    }
}

impl Default for ExpandedSet {
    fn default() -> (r: Self)
        ensures
            r@ == Set::<u32>::empty(),
    {
        Self::new()
    }
}

// ---------------------------------------------------------------------------------------------
// Searching
// ---------------------------------------------------------------------------------------------

/// Whether all characters are ASCII.
pub open spec fn all_ascii(s: Seq<char>) -> bool {
    forall|i: int| 0 <= i < s.len() ==> (#[trigger] s[i]) < '\u{80}'
}

fn is_all_ascii(s: &str) -> (r: bool)
    ensures
        r == all_ascii(s@),
{
    let v = chars_of(s);
    let mut i: usize = 0;
    while i < v.len()
        invariant
            v@ == s@,
            i <= v@.len(),
            forall|k: int| 0 <= k < i ==> (#[trigger] s@[k]) < '\u{80}',
        decreases v@.len() - i,
    {
        if v[i] >= '\u{80}' {
            assert(s@[i as int] >= '\u{80}');
            return false;
        }
        i += 1;
    }
    true
}

/// Whether the lowercase query occurs in the value, whatever the value's case.
pub open spec fn occurs_in_any_case(value: Seq<char>, query: Seq<char>) -> bool {
    if all_ascii(value) && all_ascii(query) {
        contains_spec(lower_all(value), query)
    } else {
        contains_spec(unicode_lowercase(value), query)
    }
}

/// Whether the lowercase query occurs in the value, whatever the value's case.
#[must_use]
pub fn contains_case_insensitive(value: &str, lowercase_query: &str) -> (r: bool)
    ensures
        r == occurs_in_any_case(value@, lowercase_query@),
{
    if is_all_ascii(value) && is_all_ascii(lowercase_query) {
        let lowered = to_ascii_lowercase(value);
        return contains(&lowered, lowercase_query);
    }
    let lowered = to_lowercase(value);
    contains(&lowered, lowercase_query)
}

/// What a search looks for: the trimmed text in lowercase, nothing where no text is left.
pub open spec fn query_of(query: Option<&str>) -> Option<Seq<char>> {
    match query {
        Some(text) => if trim_spec(text@).len() == 0 {
            None
        } else {
            Some(unicode_lowercase(trim_spec(text@)))
        },
        None => None,
    }
}

/// What a search looks for: the trimmed text in lowercase, nothing where no text is left.
#[must_use]
pub fn normalized_query(query: Option<&str>) -> (r: Option<String>)
    ensures
        r is Some == query_of(query) is Some,
        r matches Some(text) ==> text@ == query_of(query)->0,
{
    match query {
        None => None,
        Some(text) => {
            let trimmed = trim(text);
            if chars_of(&trimmed).len() == 0 {
                return None;
            }
            Some(to_lowercase(&trimmed))
        },
    }
}

/// Whether a text has a path separator.
pub open spec fn has_separator(s: Seq<char>) -> bool {
    s.contains('\\') || s.contains('/')
}

/// Whether entry `i` is found: by its name, or by its path where the query has a separator.
pub open spec fn is_found(g: Seq<EntryView>, i: int, query: Seq<char>) -> bool {
    occurs_in_any_case(g[i].name, query) || (has_separator(query) && occurs_in_any_case(
        path_of(g, i),
        query,
    ))
}

/// Whether the entry `id` is there and is found: by its name, or by its path where the query has a
/// separator.
#[must_use]
pub fn entry_matches_query(graph: &FileGraph, id: EntryId, query: &str) -> (r: bool)
    requires
        graph.wf(),
    ensures
        r == (id.0 < graph@.len() && is_found(graph@, id.0 as int, query@)),
{
    match graph.name(id) {
        Some(name) => {
            if contains_case_insensitive(name, query) {
                return true;
            }
        },
        None => {},
    }
    if !contains_char(query, '\\') && !contains_char(query, '/') {
        return false;
    }
    match graph.reconstruct_path(id) {
        Some(path) => contains_case_insensitive(&path, query),
        None => false,
    }
}

// ---------------------------------------------------------------------------------------------
// Rows
// ---------------------------------------------------------------------------------------------

/// A row of the tree.
#[derive(Debug)]
pub struct TreeRow {
    pub id: u32,
    pub name: String,
    pub path: String,
    pub depth: u32,
    pub is_dir: bool,
    pub expanded: bool,
    pub child_count: u32,
    pub size_bytes: u64,
    pub allocated_bytes: u64,
    pub modified_unix: i64,
}

/// What a row shows.
pub struct TreeRowView {
    pub id: u32,
    pub name: Seq<char>,
    pub path: Seq<char>,
    pub depth: u32,
    pub is_dir: bool,
    pub expanded: bool,
    pub child_count: u32,
    pub size_bytes: u64,
    pub allocated_bytes: u64,
    pub modified_unix: i64,
}

impl View for TreeRow {
    type V = TreeRowView;

    open spec fn view(&self) -> TreeRowView {
        TreeRowView {
            id: self.id,
            name: self.name@,
            path: self.path@,
            depth: self.depth,
            is_dir: self.is_dir,
            expanded: self.expanded,
            child_count: self.child_count,
            size_bytes: self.size_bytes,
            allocated_bytes: self.allocated_bytes,
            modified_unix: self.modified_unix,
        }
    }
}

/// The name shown for an entry: the last component of its path, or the name it was given where the
/// path has none.
pub open spec fn shown_name(path: Seq<char>, name: Seq<char>) -> Seq<char> {
    match file_name_spec(path) {
        Some(last) => last,
        None => name,
    }
}

/// The row of entry `i`.
pub open spec fn row_of(
    g: Seq<EntryView>,
    below: Seq<Seq<u32>>,
    expanded: Set<u32>,
    i: u32,
    depth: u32,
) -> TreeRowView {
    let entry = g[i as int];
    let directory = is_directory(entry.flags);
    TreeRowView {
        id: i,
        name: shown_name(path_of(g, i as int), entry.name),
        path: path_of(g, i as int),
        depth,
        is_dir: directory,
        expanded: expanded.contains(i),
        child_count: below[i as int].len() as u32,
        size_bytes: if directory {
            total_size(g, i as int)
        } else {
            entry.size
        },
        allocated_bytes: if directory {
            total_allocated(g, i as int)
        } else {
            entry.allocated
        },
        modified_unix: entry.modified,
    }
}

/// The name shown for an entry with this path and name.
#[must_use]
pub fn display_name_from_path(path: &str, name: &str) -> (r: String)
    ensures
        r@ == shown_name(path@, name@),
{
    match file_name(path) {
        Some(last) => last,
        None => name.to_owned(),
    }
}

/// The row of the entry `id`.
#[must_use]
pub fn tree_row_from_graph(
    graph: &FileGraph,
    index: &TreeIndex,
    expanded: &ExpandedSet,
    id: EntryId,
    depth: u32,
) -> (r: Option<TreeRow>)
    requires
        graph.wf(),
        index.wf(),
        index@.below.len() == graph@.len(),
    ensures
        r is Some == (id.0 < graph@.len()),
        r matches Some(row) ==> row@ == row_of(graph@, index@.below, expanded@, id.0, depth),
{
    match (graph.entry(id), graph.stats(id), graph.name(id), graph.reconstruct_path(id)) {
        (Some(entry), Some(stats), Some(own_name), Some(path)) => {
            let is_dir = entry.flags.contains(EntryFlags::DIRECTORY);
            let name = display_name_from_path(&path, own_name);
            let (size_bytes, allocated_bytes) = if is_dir {
                (stats.total_size.bytes(), stats.total_allocated.bytes())
            } else {
                (stats.own_size.bytes(), stats.own_allocated.bytes())
            };
            Some(
                TreeRow {
                    id: id.0,
                    name,
                    path,
                    depth,
                    is_dir,
                    expanded: expanded.contains(id),
                    child_count: index.child_count(id) as u32,
                    size_bytes,
                    allocated_bytes,
                    modified_unix: entry.modified_unix,
                },
            )
        },
        _ => None,
    }
}

// ---------------------------------------------------------------------------------------------
// What is visible
// ---------------------------------------------------------------------------------------------

/// A line of the tree: an entry, and how far below its root it stands.
pub struct Line {
    pub id: u32,
    pub depth: nat,
}

/// The lines of entry `id` and what is shown below it, from top to bottom. Without a query every
/// entry has a line, and what lies below an entry is shown where it is expanded. With a query the
/// entries that are found have a line, however deep they lie.
pub open spec fn lines_from(
    g: Seq<EntryView>,
    below: Seq<Seq<u32>>,
    expanded: Set<u32>,
    query: Option<Seq<char>>,
    id: u32,
    depth: nat,
) -> Seq<Line>
    decreases g.len() - id, 0nat,
{
    if id >= g.len() {
        Seq::empty()
    } else {
        let own = if query is None || is_found(g, id as int, query->0) {
            seq![Line { id, depth }]
        } else {
            Seq::empty()
        };
        if query is None && !expanded.contains(id) {
            own
        } else {
            own + lines_of_all(g, below, expanded, query, below[id as int], depth + 1, id as int)
        }
    }
}

/// The lines of the entries `ids`, which follow the entry `above`, and of what is shown below them.
pub open spec fn lines_of_all(
    g: Seq<EntryView>,
    below: Seq<Seq<u32>>,
    expanded: Set<u32>,
    query: Option<Seq<char>>,
    ids: Seq<u32>,
    depth: nat,
    above: int,
) -> Seq<Line>
    decreases g.len() - above - 1, ids.len() + 1,
{
    if ids.len() == 0 {
        Seq::empty()
    } else {
        lines_of_all(g, below, expanded, query, ids.drop_last(), depth, above) + if above
            < ids.last() && ids.last() < g.len() {
            lines_from(g, below, expanded, query, ids.last(), depth)
        } else {
            Seq::empty()
        }
    }
}

/// All lines of the tree, from top to bottom.
pub open spec fn all_lines(
    g: Seq<EntryView>,
    index: TreeView,
    expanded: Set<u32>,
    query: Option<Seq<char>>,
) -> Seq<Line> {
    lines_of_all(g, index.below, expanded, query, index.roots, 0, -1)
}

/// Whether these are lines of entries, none of them deeper than its number says.
pub open spec fn lie_deep(g: Seq<EntryView>, lines: Seq<Line>) -> bool {
    forall|k: int|
        0 <= k < lines.len() ==> (#[trigger] lines[k]).id < g.len() && lines[k].depth <= lines[k].id
}

proof fn lemma_both_lie_deep(g: Seq<EntryView>, a: Seq<Line>, b: Seq<Line>)
    requires
        lie_deep(g, a),
        lie_deep(g, b),
    ensures
        lie_deep(g, a + b),
{
    let lines = a + b;
    assert forall|k: int| 0 <= k < lines.len() implies (#[trigger] lines[k]).id < g.len()
        && lines[k].depth <= lines[k].id by {
        if k < a.len() {
            assert(lines[k] == a[k]);
        } else {
            assert(lines[k] == b[k - a.len()]);
        }
    }
}

/// The lines of an entry are lines of entries, none of them deeper than its number says.
pub proof fn lemma_lines_lie_deep(
    g: Seq<EntryView>,
    below: Seq<Seq<u32>>,
    expanded: Set<u32>,
    query: Option<Seq<char>>,
    id: u32,
    depth: nat,
)
    requires
        depth <= id,
    ensures
        lie_deep(g, lines_from(g, below, expanded, query, id, depth)),
    decreases g.len() - id, 0nat,
{
    if id < g.len() && !(query is None && !expanded.contains(id)) {
        let own = if query is None || is_found(g, id as int, query->0) {
            seq![Line { id, depth }]
        } else {
            Seq::empty()
        };
        lemma_lines_of_all_lie_deep(
            g,
            below,
            expanded,
            query,
            below[id as int],
            depth + 1,
            id as int,
        );
        lemma_both_lie_deep(
            g,
            own,
            lines_of_all(g, below, expanded, query, below[id as int], depth + 1, id as int),
        );
    }
}

/// The lines of entries that follow another one are lines of entries, none of them deeper than its
/// number says.
pub proof fn lemma_lines_of_all_lie_deep(
    g: Seq<EntryView>,
    below: Seq<Seq<u32>>,
    expanded: Set<u32>,
    query: Option<Seq<char>>,
    ids: Seq<u32>,
    depth: nat,
    above: int,
)
    requires
        depth <= above + 1,
    ensures
        lie_deep(g, lines_of_all(g, below, expanded, query, ids, depth, above)),
    decreases g.len() - above - 1, ids.len() + 1,
{
    if ids.len() > 0 {
        let front = lines_of_all(g, below, expanded, query, ids.drop_last(), depth, above);
        lemma_lines_of_all_lie_deep(g, below, expanded, query, ids.drop_last(), depth, above);
        if above < ids.last() && ids.last() < g.len() {
            lemma_lines_lie_deep(g, below, expanded, query, ids.last(), depth);
            lemma_both_lie_deep(
                g,
                front,
                lines_from(g, below, expanded, query, ids.last(), depth),
            );
        } else {
            assert(front + Seq::<Line>::empty() =~= front);
        }
    }
}

/// The lines that are in view: at most `limit`, from line `offset` on.
pub open spec fn in_view(lines: Seq<Line>, offset: nat, limit: nat) -> Seq<Line> {
    let from = if offset < lines.len() {
        offset as int
    } else {
        lines.len() as int
    };
    let to = if offset + limit < lines.len() {
        (offset + limit) as int
    } else {
        lines.len() as int
    };
    lines.subrange(from, to)
}

/// What the rows show.
pub open spec fn rows_view(rows: Seq<TreeRow>) -> Seq<TreeRowView> {
    rows.map_values(|row: TreeRow| row@)
}

/// The rows of these lines.
pub open spec fn rows_of(
    g: Seq<EntryView>,
    below: Seq<Seq<u32>>,
    expanded: Set<u32>,
    lines: Seq<Line>,
) -> Seq<TreeRowView> {
    lines.map_values(|line: Line| row_of(g, below, expanded, line.id, line.depth as u32))
}

/// The part of a tree that is in view.
#[derive(Debug)]
pub struct TreeViewport {
    pub offset: usize,
    pub total: usize,
    pub rows: Vec<TreeRow>,
}

/// `n`, or the largest count where it is larger.
pub open spec fn counted(n: nat) -> usize {
    if n > usize::MAX {
        usize::MAX
    } else {
        n as usize
    }
}

proof fn lemma_in_view_push(lines: Seq<Line>, line: Line, offset: nat, limit: nat)
    ensures
        in_view(lines.push(line), offset, limit) == if lines.len() >= offset && lines.len() < offset
            + limit {
            in_view(lines, offset, limit).push(line)
        } else {
            in_view(lines, offset, limit)
        },
        in_view(lines, offset, limit).len() <= limit,
        lines.len() >= offset ==> (in_view(lines, offset, limit).len() < limit <==> lines.len()
            < offset + limit),
{
    let before = in_view(lines, offset, limit);
    let after = in_view(lines.push(line), offset, limit);
    if lines.len() >= offset && lines.len() < offset + limit {
        assert(after =~= before.push(line));
    } else {
        assert(after =~= before);
    }
}

/// What the walk through the tree carries along.
struct Walk<'a> {
    graph: &'a FileGraph,
    index: &'a TreeIndex,
    expanded: &'a ExpandedSet,
    query: Option<String>,
    offset: usize,
    limit: usize,
}

/// What the walk has seen so far.
struct Seen {
    cursor: usize,
    rows: Vec<TreeRow>,
    lines: Ghost<Seq<Line>>,
}

impl<'a> Walk<'a> {
    spec fn wf(&self) -> bool {
        &&& self.graph.wf()
        &&& self.index.wf()
        &&& is_walkable(self.graph@, self.index@)
    }

    spec fn text(&self) -> Option<Seq<char>> {
        match self.query {
            Some(text) => Some(text@),
            None => None,
        }
    }

    spec fn reached(&self, seen: Seen) -> bool {
        &&& seen.cursor == counted(seen.lines@.len())
        &&& rows_view(seen.rows@) == rows_of(
            self.graph@,
            self.index@.below,
            self.expanded@,
            in_view(seen.lines@, self.offset as nat, self.limit as nat),
        )
    }

    fn add_line(&self, seen: &mut Seen, id: EntryId, depth: u32)
        requires
            self.wf(),
            self.reached(*old(seen)),
            id.0 < self.graph@.len(),
        ensures
            self.reached(*final(seen)),
            final(seen).lines@ == old(seen).lines@.push(Line { id: id.0, depth: depth as nat }),
    {
        let ghost line = Line { id: id.0, depth: depth as nat };
        let ghost lines = seen.lines@;
        let ghost shown = seen.rows@;
        proof {
            lemma_in_view_push(lines, line, self.offset as nat, self.limit as nat);
            assert(rows_view(shown).len() == shown.len());
        }
        if seen.cursor >= self.offset && seen.rows.len() < self.limit {
            if let Some(row) = tree_row_from_graph(self.graph, self.index, self.expanded, id, depth) {
                seen.rows.push(row);
                assert(rows_view(seen.rows@) =~= rows_view(shown).push(row@));
            }
        }
        seen.cursor = seen.cursor.saturating_add(1);
        seen.lines = Ghost(lines.push(line));
        proof {
            let g = self.graph@;
            let view = in_view(lines, self.offset as nat, self.limit as nat);
            assert(rows_of(g, self.index@.below, self.expanded@, view.push(line)) =~= rows_of(
                g,
                self.index@.below,
                self.expanded@,
                view,
            ).push(row_of(g, self.index@.below, self.expanded@, id.0, depth)));
        }
    }

    /// Adds the lines of the entry `id` and of what is shown below it.
    fn collect_visible_rows(&self, seen: &mut Seen, id: EntryId, depth: u32)
        requires
            self.wf(),
            self.reached(*old(seen)),
            id.0 < self.graph@.len(),
            depth <= id.0,
        ensures
            self.reached(*final(seen)),
            final(seen).lines@ == old(seen).lines@ + lines_from(
                self.graph@,
                self.index@.below,
                self.expanded@,
                self.text(),
                id.0,
                depth as nat,
            ),
        decreases self.graph@.len() - id.0,
    {
        let ghost g = self.graph@;
        let ghost below = self.index@.below;
        let ghost start = seen.lines@;
        let found = match &self.query {
            Some(query) => entry_matches_query(self.graph, id, query),
            None => true,
        };
        if found {
            self.add_line(seen, id, depth);
        }
        let ghost own = if found {
            seq![Line { id: id.0, depth: depth as nat }]
        } else {
            Seq::empty()
        };
        assert(seen.lines@ =~= start + own);
        if self.query.is_none() && !self.expanded.contains(id) {
            return;
        }
        let listed = self.index.children(id);
        let ghost ids = below[id.0 as int];
        assert forall|k: int| 0 <= k < ids.len() implies id.0 < #[trigger] ids[k] && ids[k] < g.len() by {}
        let mut i: usize = 0;
        assert(ids.take(0) =~= Seq::<u32>::empty());
        assert(seen.lines@ =~= start + own + lines_of_all(
            g,
            below,
            self.expanded@,
            self.text(),
            ids.take(0),
            (depth + 1) as nat,
            id.0 as int,
        ));
        while i < listed.len()
            invariant
                self.wf(),
                self.reached(*seen),
                g == self.graph@,
                below == self.index@.below,
                ids == raw_ids(listed@),
                i <= listed@.len(),
                depth <= id.0,
                id.0 < g.len(),
                forall|k: int|
                    0 <= k < ids.len() ==> id.0 < #[trigger] ids[k] && ids[k] < g.len(),
                seen.lines@ == start + own + lines_of_all(
                    g,
                    below,
                    self.expanded@,
                    self.text(),
                    ids.take(i as int),
                    (depth + 1) as nat,
                    id.0 as int,
                ),
            decreases listed@.len() - i,
        {
            let child = listed[i];
            assert(ids[i as int] == child.0);
            self.collect_visible_rows(seen, child, depth + 1);
            i += 1;
            proof {
                assert(ids.take(i as int).drop_last() =~= ids.take(i - 1));
                assert(ids.take(i as int).last() == child.0);
                let earlier = lines_of_all(
                    g,
                    below,
                    self.expanded@,
                    self.text(),
                    ids.take(i - 1),
                    (depth + 1) as nat,
                    id.0 as int,
                );
                let next = lines_from(
                    g,
                    below,
                    self.expanded@,
                    self.text(),
                    child.0,
                    (depth + 1) as nat,
                );
                assert((start + own + earlier) + next =~= start + own + (earlier + next));
            }
        }
        assert(ids.take(ids.len() as int) =~= ids);
        assert(seen.lines@ =~= start + lines_from(
            g,
            below,
            self.expanded@,
            self.text(),
            id.0,
            depth as nat,
        ));
    }
}

/// The rows of a tree from line `offset` on, at most `limit` of them.
pub fn visible_rows(
    graph: &FileGraph,
    index: &TreeIndex,
    expanded: &ExpandedSet,
    offset: usize,
    limit: usize,
    query: Option<&str>,
) -> (r: TreeViewport)
    requires
        graph.wf(),
        index.wf(),
        is_walkable(graph@, index@),
    ensures
        ({
            let lines = all_lines(graph@, index@, expanded@, query_of(query));
            let total = counted(lines.len());
            &&& r.total == total
            &&& r.offset == if offset < total {
                offset
            } else {
                total
            }
            &&& rows_view(r.rows@) == rows_of(
                graph@,
                index@.below,
                expanded@,
                in_view(lines, offset as nat, limit as nat),
            )
        }),
{
    let ghost g = graph@;
    let walk = Walk {
        graph,
        index,
        expanded,
        query: normalized_query(query),
        offset,
        limit,
    };
    let mut seen = Seen { cursor: 0, rows: Vec::new(), lines: Ghost(Seq::empty()) };
    let ghost text = query_of(query);
    let ghost below = index@.below;
    let ghost roots = index@.roots;
    proof {
        assert(walk.text() == text);
        assert(in_view(Seq::<Line>::empty(), offset as nat, limit as nat) =~= Seq::<Line>::empty());
        assert(rows_view(seen.rows@) =~= rows_of(g, below, expanded@, Seq::<Line>::empty()));
        assert(roots.take(0) =~= Seq::<u32>::empty());
    }
    let mut i: usize = 0;
    while i < index.roots.len()
        invariant
            walk.wf(),
            walk.reached(seen),
            walk.graph == graph,
            walk.index == index,
            walk.expanded == expanded,
            walk.offset == offset,
            walk.limit == limit,
            walk.text() == text,
            g == graph@,
            below == index@.below,
            roots == index@.roots,
            roots == raw_ids(index.roots@),
            all_entries(g, roots),
            i <= index.roots@.len(),
            seen.lines@ == lines_of_all(g, below, expanded@, text, roots.take(i as int), 0, -1),
        decreases index.roots@.len() - i,
    {
        let root = index.roots[i];
        assert(roots[i as int] == root.0);
        walk.collect_visible_rows(&mut seen, root, 0);
        i += 1;
        proof {
            assert(roots.take(i as int).drop_last() =~= roots.take(i - 1));
            assert(roots.take(i as int).last() == root.0);
        }
    }
    assert(roots.take(roots.len() as int) =~= roots);
    let total = seen.cursor;
    TreeViewport {
        offset: if offset < total {
            offset
        } else {
            total
        },
        total,
        rows: seen.rows,
    }
}

/// A row shows what its entry is: a directory with the sums over all that lies below it, as far as
/// they can be counted, a file with its own numbers; both with the time of their last change and as
/// many children as are listed below them.
pub proof fn a_row_shows_its_entry(
    g: Seq<EntryView>,
    below: Seq<Seq<u32>>,
    expanded: Set<u32>,
    i: u32,
    depth: u32,
)
    requires
        i < g.len(),
        below.len() == g.len(),
        below[i as int].len() <= u32::MAX,
    ensures
        ({
            let row = row_of(g, below, expanded, i, depth);
            let entry = g[i as int];
            &&& row.id == i
            &&& row.depth == depth
            &&& row.path == path_of(g, i as int)
            &&& row.is_dir == (entry.flags % 2 == 1)
            &&& row.expanded == expanded.contains(i)
            &&& row.child_count == below[i as int].len()
            &&& row.modified_unix == entry.modified
            &&& row.is_dir ==> row.size_bytes == capped(
                subtree_sum(g, i as int, |j: int| g[j].size as nat, g.len() as int),
                u64::MAX as nat,
            )
            &&& row.is_dir ==> row.allocated_bytes == capped(
                subtree_sum(g, i as int, |j: int| g[j].allocated as nat, g.len() as int),
                u64::MAX as nat,
            )
            &&& !row.is_dir ==> row.size_bytes == entry.size
            &&& !row.is_dir ==> row.allocated_bytes == entry.allocated
        }),
{
    the_first_mark_makes_a_directory(g[i as int].flags);
}

/// What is in view starts at the line asked for, holds no more lines than asked for, and leaves none
/// out between its first and its last.
pub proof fn a_view_is_an_unbroken_part(lines: Seq<Line>, offset: nat, limit: nat)
    ensures
        ({
            let shown = in_view(lines, offset, limit);
            &&& shown.len() <= limit
            &&& forall|k: int|
                0 <= k < shown.len() ==> offset + k < lines.len() && #[trigger] shown[k]
                    == lines[offset + k]
            &&& shown.len() < limit ==> offset + shown.len() >= lines.len()
        }),
{
}

/// A view gets as many rows as it asks for, unless that is none or more than any view gets: then the
/// least or the most there is.
pub proof fn a_view_gets_what_it_asks_for(n: usize, more: usize)
    requires
        n <= more,
    ensures
        1 <= n <= 600 ==> limit_of(Some(n)) == n,
        1 <= limit_of(Some(n)) <= limit_of(Some(more)) <= 600,
        1 <= limit_of(None) <= 600,
{
}

/// What a search looks for is the text that was typed, in small letters and without the white space
/// around it, which does not count.
pub proof fn a_search_looks_for_the_text(typed: &str, before: Seq<char>, text: Seq<char>, after: Seq<char>)
    requires
        typed@ == before + text + after,
        all_white(before),
        all_white(after),
        text.len() > 0 ==> !is_white_space_spec(text[0]) && !is_white_space_spec(text.last()),
    ensures
        text.len() > 0 ==> query_of(Some(typed)) == Some(unicode_lowercase(text)),
        text.len() == 0 ==> query_of(Some(typed)) is None,
        query_of(None) is None,
{
    trimming_leaves_the_text(before, text, after);
}

/// An entry is found by any part of its name, whatever the case of its letters, and by any part of its
/// path where that part has a separator in it. So it goes for names and paths of ASCII characters.
pub proof fn an_entry_is_found_by_any_part(
    g: Seq<EntryView>,
    i: int,
    before: Seq<char>,
    part: Seq<char>,
    behind: Seq<char>,
)
    requires
        0 <= i < g.len(),
        all_ascii(before + part + behind),
    ensures
        g[i].name == before + part + behind ==> is_found(g, i, lower_all(part)),
        path_of(g, i) == before + part + behind && (part.contains('\\') || part.contains('/')) ==> is_found(
            g,
            i,
            lower_all(part),
        ),
{
    let whole = before + part + behind;
    let low = lower_all(part);
    let at = before.len() as int;
    assert(lower_all(whole).subrange(at, at + part.len()) =~= low);
    assert(occurs_at(lower_all(whole), low, at));
    assert(all_ascii(low)) by {
        assert forall|k: int| 0 <= k < low.len() implies (#[trigger] low[k]) < '\u{80}' by {
            assert(whole[at + k] == part[k]);
            assert(whole[at + k] < '\u{80}');
        }
    }
    assert(occurs_in_any_case(whole, low));
    if part.contains('\\') {
        let k = choose|k: int| 0 <= k < part.len() && part[k] == '\\';
        assert(low[k] == '\\');
    }
    if part.contains('/') {
        let k = choose|k: int| 0 <= k < part.len() && part[k] == '/';
        assert(low[k] == '/');
    }
}

/// What is found by a text without a separator has that text in its name, and what is found by one with
/// a separator has it in its name or its path; the case of letters does not count.
pub proof fn what_is_found_has_the_text(g: Seq<EntryView>, i: int, query: Seq<char>)
    requires
        0 <= i < g.len(),
        all_ascii(g[i].name),
        all_ascii(path_of(g, i)),
        all_ascii(query),
        is_found(g, i, query),
    ensures
        exists|at: int|
            0 <= at && at + query.len() <= g[i].name.len() && #[trigger] lower_all(g[i].name).subrange(
                at,
                at + query.len(),
            ) == query || ((query.contains('\\') || query.contains('/')) && 0 <= at && at + query.len()
                <= path_of(g, i).len() && #[trigger] lower_all(path_of(g, i)).subrange(
                at,
                at + query.len(),
            ) == query),
{
    let name = lower_all(g[i].name);
    let path = lower_all(path_of(g, i));
    if occurs_in_any_case(g[i].name, query) {
        let at = choose|at: int| occurs_at(name, query, at);
        assert(name.subrange(at, at + query.len()) == query);
        assert(path.subrange(at, at + query.len()) == path.subrange(at, at + query.len()));
    } else {
        let at = choose|at: int| occurs_at(path, query, at);
        assert(path.subrange(at, at + query.len()) == query);
        assert(name.subrange(at, at + query.len()) == name.subrange(at, at + query.len()));
    }
}

} // verus!
