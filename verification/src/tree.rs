//! The tree of a scan as it is shown: the entries below each entry, sorted.

use vstd::prelude::*;

use crate::graph::{children, is_forest, raw_ids, EntryId, EntryView, FileGraph};
use crate::order::lemma_same_members;
use crate::ranking::{a_list_sorted_down_never_grows, entry_order, is_sorted, order_for, size_in_list,
    sort_raw, sorting_is_unique, wrap_ids, EntryOrder, OrderKey, SortKey};
use crate::select::{select, select_picks};
use crate::text::{lower_all, same_text, to_ascii_lowercase};

verus! {

// ---------------------------------------------------------------------------------------------
// How the tree is sorted
// ---------------------------------------------------------------------------------------------

/// How the tree is sorted.
#[derive(Debug, Clone, Copy, PartialEq, Eq, Structural)]
pub struct SortSpec {
    pub key: SortKey,
    pub descending: bool,
}

impl Default for SortSpec {
    /// The largest first.
    fn default() -> (r: Self)
        ensures
            r == (SortSpec { key: SortKey::Size, descending: true }),
    {
        SortSpec { key: SortKey::Size, descending: true }
    }
}

/// The key that a word names: the size where it names none.
pub open spec fn sort_key_of(value: Seq<char>) -> SortKey {
    if lower_all(value) == "name"@ {
        SortKey::Name
    } else if lower_all(value) == "allocated"@ {
        SortKey::Allocated
    } else if lower_all(value) == "modified"@ {
        SortKey::Modified
    } else {
        SortKey::Size
    }
}

/// The key that was asked for, if one was.
pub open spec fn sort_key_asked(value: Option<&str>) -> SortKey {
    match value {
        Some(word) => sort_key_of(word@),
        None => sort_key_of(Seq::empty()),
    }
}

impl SortKey {
    /// The key that a word names, whatever its case: the size where it names none.
    #[must_use]
    pub fn parse(value: Option<&str>) -> (r: Self)
        ensures
            r == sort_key_asked(value),
    {
        let word = match value {
            Some(word) => to_ascii_lowercase(word),
            None => {
                assert(lower_all(Seq::<char>::empty()) =~= Seq::<char>::empty());
                String::new()
            },
        };
        if same_text(&word, "name") {
            SortKey::Name
        } else if same_text(&word, "allocated") {
            SortKey::Allocated
        } else if same_text(&word, "modified") {
            SortKey::Modified
        } else {
            SortKey::Size
        }
    }
}

/// The order that was asked for: names ascend and everything else descends unless the request says
/// otherwise.
pub open spec fn sort_asked(key: Option<&str>, descending: Option<bool>) -> SortSpec {
    SortSpec {
        key: sort_key_asked(key),
        descending: match descending {
            Some(down) => down,
            None => sort_key_asked(key) != SortKey::Name,
        },
    }
}

impl SortSpec {
    /// What was asked for: names ascend and everything else descends unless the request says
    /// otherwise.
    #[must_use]
    pub fn from_parts(key: Option<&str>, descending: Option<bool>) -> (r: Self)
        ensures
            r == sort_asked(key, descending),
    {
        let key = SortKey::parse(key);
        SortSpec {
            key,
            descending: match descending {
                Some(down) => down,
                None => match key {
                    SortKey::Name => false,
                    _ => true,
                },
            },
        }
    }

    /// The order of entries that this asks for.
    pub open spec fn order(self) -> EntryOrder {
        order_for(self.key, self.descending)
    }
}

// ---------------------------------------------------------------------------------------------
// The index
// ---------------------------------------------------------------------------------------------

#[derive(Debug, Clone, Copy)]
struct ChildRange {
    start: usize,
    len: usize,
}

/// For every entry the entries right below it, one list behind the other.
#[derive(Debug)]
pub struct ChildLists {
    ids: Vec<EntryId>,
    ranges: Vec<ChildRange>,
}

impl View for ChildLists {
    type V = Seq<Seq<u32>>;

    closed spec fn view(&self) -> Seq<Seq<u32>> {
        Seq::new(
            self.ranges@.len(),
            |p: int|
                raw_ids(
                    self.ids@.subrange(
                        self.ranges@[p].start as int,
                        self.ranges@[p].start + self.ranges@[p].len,
                    ),
                ),
        )
    }
}

impl ChildLists {
    /// Every range lies within the list of entries.
    pub closed spec fn wf(&self) -> bool {
        forall|p: int|
            0 <= p < self.ranges@.len() ==> (#[trigger] self.ranges@[p]).start + self.ranges@[p].len
                <= self.ids@.len()
    }

    fn new() -> (r: Self)
        ensures
            r.wf(),
            r@ == Seq::<Seq<u32>>::empty(),
    {
        let r = ChildLists { ids: Vec::new(), ranges: Vec::new() };
        assert(r@ =~= Seq::<Seq<u32>>::empty());
        r
    }

    fn push(&mut self, listed: Vec<EntryId>)
        requires
            old(self).wf(),
        ensures
            final(self).wf(),
            final(self)@ == old(self)@.push(raw_ids(listed@)),
    {
        let ghost before = *self;
        let ghost new = listed@;
        let mut listed = listed;
        let start: usize = self.ids.len();
        let len: usize = listed.len();
        self.ids.append(&mut listed);
        self.ranges.push(ChildRange { start, len });
        proof {
            assert(self.ids@ =~= before.ids@ + new);
            assert(self.ids@.subrange(start as int, start + len) =~= new);
            assert forall|p: int| 0 <= p < before.ranges@.len() implies #[trigger] self@[p] == before@[p] by {
                let range = before.ranges@[p];
                assert(self.ids@.subrange(range.start as int, range.start + range.len)
                    =~= before.ids@.subrange(range.start as int, range.start + range.len));
            }
            assert(self@ =~= before@.push(raw_ids(new)));
        }
    }

    fn list(&self, at: usize) -> (r: &[EntryId])
        requires
            self.wf(),
        ensures
            raw_ids(r@) == if at < self@.len() {
                self@[at as int]
            } else {
                Seq::empty()
            },
    {
        let all = self.ids.as_slice();
        if at >= self.ranges.len() {
            let none = vstd::slice::slice_subrange(all, 0, 0);
            assert(raw_ids(none@) =~= Seq::<u32>::empty());
            return none;
        }
        let range = self.ranges[at];
        assert(all.len() == all@.len());
        vstd::slice::slice_subrange(all, range.start, range.start + range.len)
    }
}

/// The roots of a tree, and for every entry the entries right below it, sorted.
#[derive(Debug)]
pub struct TreeIndex {
    /// The entries at the top of the tree.
    pub roots: Vec<EntryId>,
    /// For every entry the entries right below it.
    pub below: ChildLists,
}

/// What an index holds.
pub struct TreeView {
    pub roots: Seq<u32>,
    pub below: Seq<Seq<u32>>,
}

impl View for TreeIndex {
    type V = TreeView;

    open spec fn view(&self) -> TreeView {
        TreeView { roots: raw_ids(self.roots@), below: self.below@ }
    }
}

/// The numbers of the entries without a parent, ascending.
pub open spec fn root_ids(g: Seq<EntryView>) -> Seq<u32> {
    select(g.len(), |i: int| g[i].parent is None)
}

/// Whether every number is one of an entry.
pub open spec fn all_entries(g: Seq<EntryView>, ids: Seq<u32>) -> bool {
    forall|k: int| 0 <= k < ids.len() ==> (#[trigger] ids[k]) < g.len()
}

/// Whether the lists are those of the graph, in this order.
pub open spec fn lists_children(g: Seq<EntryView>, order: EntryOrder, below: Seq<Seq<u32>>) -> bool {
    &&& below.len() == g.len()
    &&& forall|p: int|
        0 <= p < g.len() ==> is_sorted(g, order, children(g, p as u32), #[trigger] below[p])
}

/// Whether the index belongs to the graph: its roots are entries, and its lists those of the graph.
pub open spec fn indexes(g: Seq<EntryView>, order: EntryOrder, index: TreeView) -> bool {
    &&& all_entries(g, index.roots)
    &&& lists_children(g, order, index.below)
}

/// What stands in a list of children: entries that follow their parent.
pub proof fn lemma_listed_children(g: Seq<EntryView>, order: EntryOrder, p: u32, listed: Seq<u32>)
    requires
        is_forest(g),
        is_sorted(g, order, children(g, p), listed),
    ensures
        forall|k: int|
            0 <= k < listed.len() ==> p < #[trigger] listed[k] && listed[k] < g.len()
                && g[listed[k] as int].parent == Some(p),
{
    let hangs = |i: int| g[i].parent == Some(p);
    let ids = children(g, p);
    select_picks(g.len(), hangs);
    lemma_same_members(listed, ids);
    assert forall|k: int| 0 <= k < listed.len() implies p < #[trigger] listed[k] && listed[k] < g.len()
        && g[listed[k] as int].parent == Some(p) by {
        assert(listed.contains(listed[k]));
        assert(ids.contains(listed[k]));
        let m = choose|m: int| 0 <= m < ids.len() && ids[m] == listed[k];
        assert(hangs(ids[m] as int));
    }
}

/// Whether a walk from the roots down comes to an end: the roots are entries, and what is listed
/// below an entry are entries that follow it.
pub open spec fn is_walkable(g: Seq<EntryView>, index: TreeView) -> bool {
    &&& all_entries(g, index.roots)
    &&& index.below.len() == g.len()
    &&& forall|p: int, k: int|
        0 <= p < g.len() && 0 <= k < index.below[p].len() ==> p < #[trigger] index.below[p][k]
            && index.below[p][k] < g.len()
}

/// The index of a graph can be walked.
pub proof fn an_index_is_walkable(g: Seq<EntryView>, order: EntryOrder, index: TreeView)
    requires
        is_forest(g),
        indexes(g, order, index),
    ensures
        is_walkable(g, index),
{
    assert forall|p: int, k: int| 0 <= p < g.len() && 0 <= k < index.below[p].len() implies p
        < #[trigger] index.below[p][k] && index.below[p][k] < g.len() by {
        lemma_listed_children(g, order, p as u32, index.below[p]);
    }
}

/// There is only one index of a graph in an order, once its roots are chosen.
pub proof fn an_index_is_unique(
    g: Seq<EntryView>,
    order: EntryOrder,
    a: Seq<Seq<u32>>,
    b: Seq<Seq<u32>>,
)
    requires
        lists_children(g, order, a),
        lists_children(g, order, b),
    ensures
        a == b,
{
    assert forall|p: int| 0 <= p < g.len() implies a[p] == b[p] by {
        sorting_is_unique(g, order, children(g, p as u32), a[p], b[p]);
    }
    assert(a =~= b);
}

impl TreeIndex {
    /// The lists are well-formed.
    pub open spec fn wf(&self) -> bool {
        self.below.wf()
    }

    /// The index of a graph: the roots and the entries below each entry, sorted.
    #[must_use]
    pub fn build(graph: &FileGraph, sort: SortSpec) -> (r: Self)
        requires
            graph.wf(),
        ensures
            r.wf(),
            indexes(graph@, sort.order(), r@),
            is_walkable(graph@, r@),
            is_sorted(graph@, sort.order(), root_ids(graph@), r@.roots),
    {
        Self::build_in_order(graph, entry_order(sort.key, sort.descending))
    }

    /// The index of a graph with the largest totals first, ties by name.
    #[must_use]
    pub fn build_by_total_size(graph: &FileGraph) -> (r: Self)
        requires
            graph.wf(),
        ensures
            r.wf(),
            indexes(graph@, largest_totals_first(), r@),
            is_walkable(graph@, r@),
            is_sorted(graph@, largest_totals_first(), root_ids(graph@), r@.roots),
    {
        Self::build_in_order(
            graph,
            EntryOrder { key: OrderKey::TotalSize, descending: true, by_name: true },
        )
    }

    fn build_in_order(graph: &FileGraph, order: EntryOrder) -> (r: Self)
        requires
            graph.wf(),
        ensures
            r.wf(),
            indexes(graph@, order, r@),
            is_walkable(graph@, r@),
            is_sorted(graph@, order, root_ids(graph@), r@.roots),
    {
        let ghost g = graph@;
        proof {
            graph.lemma_wf();
        }
        let (top, lists) = split_by_parent(graph);
        let sorted_roots = sort_raw(graph, order, &top);
        let roots = wrap_ids(&sorted_roots);
        let mut below = ChildLists::new();
        let mut p: usize = 0;
        while p < lists.len()
            invariant
                graph.wf(),
                g == graph@,
                lists@.len() == g.len(),
                p <= lists@.len(),
                below.wf(),
                below@.len() == p,
                g.len() <= u32::MAX + 1,
                forall|q: int| 0 <= q < lists@.len() ==> (#[trigger] lists@[q])@ == children(g, q as u32),
                forall|q: int|
                    0 <= q < p ==> is_sorted(g, order, children(g, q as u32), #[trigger] below@[q]),
            decreases lists@.len() - p,
        {
            let sorted = sort_raw(graph, order, &lists[p]);
            assert(lists@[p as int]@ == children(g, p as u32));
            below.push(wrap_ids(&sorted));
            p += 1;
        }
        let r = TreeIndex { roots, below };
        proof {
            let rootless = |i: int| g[i].parent is None;
            select_picks(g.len(), rootless);
            lemma_same_members(r@.roots, root_ids(g));
            assert forall|k: int| 0 <= k < r@.roots.len() implies (#[trigger] r@.roots[k]) < g.len() by {
                assert(r@.roots.contains(r@.roots[k]));
                let ids = root_ids(g);
                assert(ids.contains(r@.roots[k]));
                let m = choose|m: int| 0 <= m < ids.len() && ids[m] == r@.roots[k];
                assert(rootless(ids[m] as int));
            }
            an_index_is_walkable(g, order, r@);
        }
        r
    }

    /// The entries right below the entry `id`, sorted.
    #[must_use]
    pub fn children(&self, id: EntryId) -> (r: &[EntryId])
        requires
            self.wf(),
        ensures
            raw_ids(r@) == if id.0 < self@.below.len() {
                self@.below[id.0 as int]
            } else {
                Seq::empty()
            },
    {
        self.below.list(id.0 as usize)
    }

    /// How many entries lie right below the entry `id`.
    #[must_use]
    pub fn child_count(&self, id: EntryId) -> (r: usize)
        requires
            self.wf(),
        ensures
            r == if id.0 < self@.below.len() {
                self@.below[id.0 as int].len()
            } else {
                0
            },
    {
        let listed = self.below.list(id.0 as usize);
        assert(raw_ids(listed@).len() == listed@.len());
        listed.len()
    }
}

/// The order with the largest totals first, ties by name.
pub open spec fn largest_totals_first() -> EntryOrder {
    EntryOrder { key: OrderKey::TotalSize, descending: true, by_name: true }
}

/// The entries right below each entry, ascending.
pub(crate) fn child_lists(graph: &FileGraph) -> (r: Vec<Vec<u32>>)
    requires
        graph.wf(),
    ensures
        r@.len() == graph@.len(),
        forall|q: int| 0 <= q < graph@.len() ==> (#[trigger] r@[q])@ == children(graph@, q as u32),
{
    split_by_parent(graph).1
}

/// The entries without a parent, and those right below each entry, ascending.
fn split_by_parent(graph: &FileGraph) -> (r: (Vec<u32>, Vec<Vec<u32>>))
    requires
        graph.wf(),
    ensures
        r.0@ == root_ids(graph@),
        r.1@.len() == graph@.len(),
        forall|q: int|
            0 <= q < graph@.len() ==> (#[trigger] r.1@[q])@ == children(graph@, q as u32),
{
    let ghost g = graph@;
    let n = graph.len();
    proof {
        graph.lemma_wf();
    }
    let mut lists: Vec<Vec<u32>> = Vec::new();
    let mut q: usize = 0;
    while q < n
        invariant
            q <= n,
            lists@.len() == q,
            forall|k: int| 0 <= k < q ==> (#[trigger] lists@[k])@ == Seq::<u32>::empty(),
        decreases n - q,
    {
        lists.push(Vec::new());
        q += 1;
    }
    let mut roots: Vec<u32> = Vec::new();
    let ghost rootless = |i: int| g[i].parent is None;
    let mut i: usize = 0;
    while i < n
        invariant
            graph.wf(),
            is_forest(g),
            g == graph@,
            n == g.len(),
            i <= n,
            lists@.len() == n,
            rootless == (|i: int| g[i].parent is None),
            roots@ == select(i as nat, rootless),
            forall|k: int|
                0 <= k < n ==> (#[trigger] lists@[k])@ == select(
                    i as nat,
                    |j: int| g[j].parent == Some(k as u32),
                ),
        decreases n - i,
    {
        let ghost before = lists@;
        match graph.entry(EntryId(i as u32)) {
            Some(entry) => match entry.parent {
                Some(above) => {
                    let at = above.0 as usize;
                    assert(g[i as int].parent == Some(above.0));
                    lists[at].push(i as u32);
                    assert(lists@[at as int]@ == before[at as int]@.push(i as u32));
                    assert forall|k: int| 0 <= k < n && k != at implies #[trigger] lists@[k] == before[k] by {}
                },
                None => {
                    roots.push(i as u32);
                },
            },
            None => {},
        }
        i += 1;
        assert(roots@ == select(i as nat, rootless));
        assert forall|k: int| 0 <= k < n implies (#[trigger] lists@[k])@ == select(
            i as nat,
            |j: int| g[j].parent == Some(k as u32),
        ) by {
            let hangs = |j: int| g[j].parent == Some(k as u32);
            assert(before[k]@ == select((i - 1) as nat, hangs));
        }
    }
    (roots, lists)
}

// ---------------------------------------------------------------------------------------------
// Laws
// ---------------------------------------------------------------------------------------------

/// An index lists below an entry the entries that hang on it, each once, and no other.
pub proof fn an_index_lists_every_child(
    g: Seq<EntryView>,
    order: EntryOrder,
    index: TreeView,
    p: u32,
    i: u32,
)
    requires
        g.len() <= u32::MAX + 1,
        indexes(g, order, index),
        p < g.len(),
    ensures
        index.below[p as int].contains(i) <==> i < g.len() && g[i as int].parent == Some(p),
        index.below[p as int].no_duplicates(),
{
    let hangs = |i: int| g[i].parent == Some(p);
    let ids = children(g, p);
    let listed = index.below[p as int];
    select_picks(g.len(), hangs);
    assert(is_sorted(g, order, children(g, (p as int) as u32), listed));
    lemma_same_members(listed, ids);
    if ids.contains(i) {
        let k = choose|k: int| 0 <= k < ids.len() && ids[k] == i;
        assert(hangs(ids[k] as int));
    }
    if i < g.len() && g[i as int].parent == Some(p) {
        assert(hangs(i as int));
    }
    assert(ids.no_duplicates()) by {
        assert forall|j: int, k: int| 0 <= j < ids.len() && 0 <= k < ids.len() && j != k implies ids[j]
            != ids[k] by {
            if j < k {
                assert(ids[j] < ids[k]);
            } else {
                assert(ids[k] < ids[j]);
            }
        }
    }
    ids.lemma_multiset_has_no_duplicates();
    listed.lemma_multiset_has_no_duplicates_conv();
}

/// The entries at the top of a tree are those that hang on no other.
pub proof fn roots_hang_on_nothing(g: Seq<EntryView>, i: u32)
    requires
        g.len() <= u32::MAX + 1,
    ensures
        root_ids(g).contains(i) <==> i < g.len() && g[i as int].parent is None,
{
    let free = |i: int| g[i].parent is None;
    select_picks(g.len(), free);
    if root_ids(g).contains(i) {
        let k = choose|k: int| 0 <= k < root_ids(g).len() && root_ids(g)[k] == i;
        assert(free(root_ids(g)[k] as int));
    }
    if i < g.len() && g[i as int].parent is None {
        assert(free(i as int));
    }
}

/// A tree that was asked for by size, the largest first, never grows down a list: a directory counts
/// with all that lies below it.
pub proof fn a_tree_by_size_never_grows(
    g: Seq<EntryView>,
    index: TreeView,
    p: u32,
    j: int,
    k: int,
)
    requires
        is_forest(g),
        indexes(g, (SortSpec { key: SortKey::Size, descending: true }).order(), index),
        p < g.len(),
        0 <= j < k < index.below[p as int].len(),
    ensures
        size_in_list(g, index.below[p as int][j] as int) >= size_in_list(
            g,
            index.below[p as int][k] as int,
        ),
{
    let order = (SortSpec { key: SortKey::Size, descending: true }).order();
    let listed = index.below[p as int];
    assert(is_sorted(g, order, children(g, (p as int) as u32), listed));
    lemma_listed_children(g, order, p, listed);
    a_list_sorted_down_never_grows(g, SortKey::Size, children(g, p), listed, j, k);
}

/// The case of the letters in a word for a key does not matter. What a request says of the direction
/// is done; where it says nothing, only names go up.
pub proof fn requests_for_an_order_are_understood(
    a: &str,
    b: &str,
    down: bool,
)
    requires
        lower_all(a@) == lower_all(b@),
    ensures
        sort_asked(Some(a), Some(down)).key == sort_asked(Some(b), None).key,
        sort_asked(Some(a), Some(down)).descending == down,
        sort_asked(None, Some(down)).descending == down,
        sort_asked(Some(a), None).descending <==> sort_asked(Some(a), None).key != SortKey::Name,
{
}

} // verus!
