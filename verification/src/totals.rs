//! Sums over a graph: what a scan found, and how much room it takes in all.

use vstd::prelude::*;

use crate::graph::{capped, children, descendants, is_directory, is_forest, raw_ids, stats_of, subtree_sum,
    total_allocated, total_size, within, EntryFlags, EntryId, EntryView, FileGraph};
use crate::scan::{lemma_marked, marked_before, ScanSummary};
use crate::select::{select, sum_where};
use crate::tree::root_ids;

verus! {

/// How many of the first `n` entries are directories.
pub open spec fn directories_among(g: Seq<EntryView>, n: nat) -> nat {
    sum_where(n, |i: int| is_directory(g[i].flags), |i: int| 1)
}

/// What the entries of a graph come to.
pub open spec fn summary_of(g: Seq<EntryView>) -> ScanSummary {
    ScanSummary {
        entries: g.len() as u64,
        inaccessible: 0,
        directories: directories_among(g, g.len()) as u64,
        files: (g.len() - directories_among(g, g.len())) as u64,
    }
}

/// What the entries of a graph come to.
#[must_use]
pub fn summary_from_graph(graph: &FileGraph) -> (r: ScanSummary)
    requires
        graph.wf(),
    ensures
        r == summary_of(graph@),
{
    let ghost g = graph@;
    proof {
        graph.lemma_wf();
    }
    let n = graph.len();
    let mut directories: u64 = 0;
    let mut files: u64 = 0;
    let mut i: usize = 0;
    while i < n
        invariant
            graph.wf(),
            g == graph@,
            n == g.len(),
            n <= u32::MAX + 1,
            i <= n,
            directories + files == i,
            directories == directories_among(g, i as nat),
        decreases n - i,
    {
        match graph.entry(EntryId(i as u32)) {
            Some(entry) => if entry.flags.contains(EntryFlags::DIRECTORY) {
                directories += 1;
            } else {
                files += 1;
            },
            None => {},
        }
        i += 1;
    }
    ScanSummary { entries: n as u64, inaccessible: 0, directories, files }
}

/// A summary counts every entry once: as a directory where it has the first mark, else as a file.
pub proof fn a_summary_counts_every_entry(g: Seq<EntryView>)
    requires
        is_forest(g),
    ensures
        summary_of(g).entries == g.len(),
        summary_of(g).directories + summary_of(g).files == g.len(),
        summary_of(g).directories == directories_among(g, g.len()),
        summary_of(g).directories == marked_before(g, g.len()),
        summary_of(g).inaccessible == 0,
{
    lemma_directories_among(g, g.len());
    lemma_marked(g, g.len());
}

proof fn lemma_directories_among(g: Seq<EntryView>, n: nat)
    ensures
        directories_among(g, n) <= n,
    decreases n,
{
    if n > 0 {
        lemma_directories_among(g, (n - 1) as nat);
    }
}

/// The sum of the totals of these entries; what is no entry counts nothing.
pub open spec fn sum_of_totals(g: Seq<EntryView>, ids: Seq<u32>, total: spec_fn(int) -> nat) -> nat
    decreases ids.len(),
{
    if ids.len() == 0 {
        0
    } else {
        sum_of_totals(g, ids.drop_last(), total) + if ids.last() < g.len() {
            total(ids.last() as int)
        } else {
            0
        }
    }
}

/// The size of these entries with everything below them.
pub open spec fn size_of_all(g: Seq<EntryView>, ids: Seq<u32>) -> u64 {
    capped(sum_of_totals(g, ids, |i: int| total_size(g, i) as nat), u64::MAX as nat) as u64
}

/// The allocated size of these entries with everything below them.
pub open spec fn allocated_of_all(g: Seq<EntryView>, ids: Seq<u32>) -> u64 {
    capped(sum_of_totals(g, ids, |i: int| total_allocated(g, i) as nat), u64::MAX as nat) as u64
}

/// The size and the allocated size of these entries with everything below them.
#[must_use]
pub fn totals_for_roots(graph: &FileGraph, roots: &Vec<EntryId>) -> (r: (u64, u64))
    requires
        graph.wf(),
    ensures
        r.0 == size_of_all(graph@, raw_ids(roots@)),
        r.1 == allocated_of_all(graph@, raw_ids(roots@)),
{
    let ghost g = graph@;
    let ghost ids = raw_ids(roots@);
    let mut size: u64 = 0;
    let mut allocated: u64 = 0;
    let mut i: usize = 0;
    while i < roots.len()
        invariant
            graph.wf(),
            g == graph@,
            ids == raw_ids(roots@),
            i <= roots@.len(),
            size == size_of_all(g, ids.take(i as int)),
            allocated == allocated_of_all(g, ids.take(i as int)),
        decreases roots@.len() - i,
    {
        proof {
            assert(ids.take(i + 1).drop_last() =~= ids.take(i as int));
            assert(ids.take(i + 1).last() == roots@[i as int].0);
        }
        match graph.stats(roots[i]) {
            Some(stats) => {
                size = size.saturating_add(stats.total_size.bytes());
                allocated = allocated.saturating_add(stats.total_allocated.bytes());
            },
            None => {},
        }
        i += 1;
    }
    assert(ids.take(ids.len() as int) =~= ids);
    (size, allocated)
}

/// The entries without a parent.
#[must_use]
pub fn parentless_ids(graph: &FileGraph) -> (r: Vec<EntryId>)
    requires
        graph.wf(),
    ensures
        raw_ids(r@) == root_ids(graph@),
{
    let ghost g = graph@;
    let ghost rootless = |i: int| g[i].parent is None;
    proof {
        graph.lemma_wf();
    }
    let n = graph.len();
    let mut r: Vec<EntryId> = Vec::new();
    let mut i: usize = 0;
    assert(raw_ids(r@) =~= Seq::<u32>::empty());
    while i < n
        invariant
            graph.wf(),
            g == graph@,
            n == g.len(),
            n <= u32::MAX + 1,
            i <= n,
            rootless == (|i: int| g[i].parent is None),
            raw_ids(r@) == select(i as nat, rootless),
        decreases n - i,
    {
        let ghost shown = r@;
        match graph.entry(EntryId(i as u32)) {
            Some(entry) => match entry.parent {
                None => {
                    r.push(EntryId(i as u32));
                    assert(raw_ids(r@) =~= raw_ids(shown).push(i as u32));
                },
                Some(_) => {},
            },
            None => {},
        }
        i += 1;
    }
    r
}

/// The size and the allocated size of everything in a graph.
#[must_use]
pub fn graph_totals(graph: &FileGraph) -> (r: (u64, u64))
    requires
        graph.wf(),
    ensures
        r.0 == size_of_all(graph@, root_ids(graph@)),
        r.1 == allocated_of_all(graph@, root_ids(graph@)),
{
    let roots = parentless_ids(graph);
    totals_for_roots(graph, &roots)
}

/// The size of everything in a graph.
#[must_use]
pub fn graph_accounted_size(graph: &FileGraph) -> (r: u64)
    requires
        graph.wf(),
    ensures
        r == size_of_all(graph@, root_ids(graph@)),
{
    graph_totals(graph).0
}

/// The allocated size of everything in a graph.
#[must_use]
pub fn graph_accounted_allocated(graph: &FileGraph) -> (r: u64)
    requires
        graph.wf(),
    ensures
        r == allocated_of_all(graph@, root_ids(graph@)),
{
    graph_totals(graph).1
}

// ---------------------------------------------------------------------------------------------
// What the roots account for
// ---------------------------------------------------------------------------------------------

/// The entry at the top of the tree that entry `i` stands in.
pub open spec fn root_of(g: Seq<EntryView>, i: int) -> int
    decreases i,
{
    match g[i].parent {
        Some(p) => if 0 <= p < i {
            root_of(g, p as int)
        } else {
            i
        },
        None => i,
    }
}

proof fn lemma_one_root(g: Seq<EntryView>, i: int, r: int)
    requires
        is_forest(g),
        0 <= i < g.len(),
        0 <= r < g.len(),
        g[r].parent is None,
    ensures
        within(g, i, r) == (root_of(g, i) == r),
        0 <= root_of(g, i) < g.len(),
        g[root_of(g, i)].parent is None,
    decreases i,
{
    match g[i].parent {
        Some(p) => {
            lemma_one_root(g, p as int, r);
        },
        None => {},
    }
}

/// The sum, over the entries below `n` without a parent, of what entry `i` adds to them.
spec fn shares(g: Seq<EntryView>, n: nat, i: int, f: spec_fn(int) -> nat) -> nat {
    sum_where(n, |r: int| g[r].parent is None, |r: int| if within(g, i, r) { f(i) } else { 0 })
}

proof fn lemma_one_share(g: Seq<EntryView>, n: nat, i: int, f: spec_fn(int) -> nat)
    requires
        is_forest(g),
        n <= g.len(),
        0 <= i < g.len(),
    ensures
        shares(g, n, i, f) == if root_of(g, i) < n {
            f(i)
        } else {
            0
        },
    decreases n,
{
    lemma_root_in_graph(g, i);
    if n > 0 {
        lemma_one_share(g, (n - 1) as nat, i, f);
        if g[n - 1].parent is None {
            lemma_one_root(g, i, n - 1);
        }
    }
}

proof fn lemma_root_in_graph(g: Seq<EntryView>, i: int)
    requires
        is_forest(g),
        0 <= i < g.len(),
    ensures
        0 <= root_of(g, i) <= i,
        g[root_of(g, i)].parent is None,
    decreases i,
{
    match g[i].parent {
        Some(p) => {
            lemma_root_in_graph(g, p as int);
        },
        None => {},
    }
}

/// The sum of `f` over the first `m` entries, each counted for the roots below `n` above it.
spec fn by_root(g: Seq<EntryView>, n: nat, m: nat, f: spec_fn(int) -> nat) -> nat {
    sum_where(n, |r: int| g[r].parent is None, |r: int| subtree_sum(g, r, f, m as int))
}

proof fn lemma_by_root_step(g: Seq<EntryView>, n: nat, m: nat, f: spec_fn(int) -> nat)
    requires
        m > 0,
    ensures
        by_root(g, n, m, f) == by_root(g, n, (m - 1) as nat, f) + shares(g, n, m - 1, f),
    decreases n,
{
    if n > 0 {
        lemma_by_root_step(g, (n - 1) as nat, m, f);
    }
}

proof fn lemma_by_root_none(g: Seq<EntryView>, n: nat, f: spec_fn(int) -> nat)
    ensures
        by_root(g, n, 0, f) == 0,
    decreases n,
{
    if n > 0 {
        lemma_by_root_none(g, (n - 1) as nat, f);
    }
}

proof fn lemma_roots_cover(g: Seq<EntryView>, m: nat, f: spec_fn(int) -> nat)
    requires
        is_forest(g),
        m <= g.len(),
    ensures
        by_root(g, g.len(), m, f) == sum_where(m, |i: int| true, f),
    decreases m,
{
    if m == 0 {
        lemma_by_root_none(g, g.len(), f);
    } else {
        lemma_roots_cover(g, (m - 1) as nat, f);
        lemma_by_root_step(g, g.len(), m, f);
        lemma_one_share(g, g.len(), m - 1, f);
        lemma_root_in_graph(g, m - 1);
    }
}

/// Summing over the selected numbers is summing where they are selected, with the cap put on late.
proof fn lemma_selected_sum(
    g: Seq<EntryView>,
    n: nat,
    p: spec_fn(int) -> bool,
    total: spec_fn(int) -> nat,
    whole: spec_fn(int) -> nat,
    max: nat,
)
    requires
        n <= g.len(),
        g.len() <= u32::MAX + 1,
        forall|i: int| 0 <= i < n ==> #[trigger] total(i) == capped(whole(i), max),
    ensures
        capped(sum_of_totals(g, select(n, p), total), max) == capped(sum_where(n, p, whole), max),
    decreases n,
{
    if n > 0 {
        lemma_selected_sum(g, (n - 1) as nat, p, total, whole, max);
        if p(n - 1) {
            let ids = select(n, p);
            assert(ids.drop_last() =~= select((n - 1) as nat, p));
            assert(ids.last() == (n - 1) as u32);
            assert(total(n - 1) == capped(whole(n - 1), max));
        }
    }
}

/// The roots account for every entry once: their sizes come to the sizes of all entries, as far as
/// the number fits.
pub proof fn roots_account_for_every_size(g: Seq<EntryView>)
    requires
        is_forest(g),
    ensures
        size_of_all(g, root_ids(g)) == capped(
            sum_where(g.len(), |i: int| true, |i: int| g[i].size as nat),
            u64::MAX as nat,
        ),
{
    let f = |i: int| g[i].size as nat;
    let rootless = |r: int| g[r].parent is None;
    lemma_selected_sum(
        g,
        g.len(),
        rootless,
        |i: int| total_size(g, i) as nat,
        |r: int| subtree_sum(g, r, f, g.len() as int),
        u64::MAX as nat,
    );
    lemma_roots_cover(g, g.len(), f);
}

/// The roots account for every entry once: their allocated sizes come to those of all entries, as
/// far as the number fits.
pub proof fn roots_account_for_every_allocation(g: Seq<EntryView>)
    requires
        is_forest(g),
    ensures
        allocated_of_all(g, root_ids(g)) == capped(
            sum_where(g.len(), |i: int| true, |i: int| g[i].allocated as nat),
            u64::MAX as nat,
        ),
{
    let f = |i: int| g[i].allocated as nat;
    let rootless = |r: int| g[r].parent is None;
    lemma_selected_sum(
        g,
        g.len(),
        rootless,
        |i: int| total_allocated(g, i) as nat,
        |r: int| subtree_sum(g, r, f, g.len() as int),
        u64::MAX as nat,
    );
    lemma_roots_cover(g, g.len(), f);
}

// ---------------------------------------------------------------------------------------------
// What a total is made of
// ---------------------------------------------------------------------------------------------

/// The entry right below `p` on the way down to `i`.
pub open spec fn step_below(g: Seq<EntryView>, i: int, p: int) -> int
    decreases i,
{
    match g[i].parent {
        Some(q) => if q == p || q >= i || q < 0 {
            i
        } else {
            step_below(g, q as int, p)
        },
        None => i,
    }
}

proof fn lemma_within_is_below(g: Seq<EntryView>, i: int, p: int)
    requires
        is_forest(g),
        0 <= i < g.len(),
        within(g, i, p),
    ensures
        p <= i,
    decreases i,
{
    match g[i].parent {
        Some(q) => {
            if i != p {
                lemma_within_is_below(g, q as int, p);
            }
        },
        None => {},
    }
}

pub proof fn lemma_one_step_below(g: Seq<EntryView>, i: int, p: int, c: int)
    requires
        is_forest(g),
        0 <= i < g.len(),
        0 <= p < g.len(),
        0 <= c < g.len(),
        g[c].parent == Some(p as u32),
    ensures
        within(g, i, c) == (i != p && within(g, i, p) && step_below(g, i, p) == c),
    decreases i,
{
    assert(p < c);
    match g[i].parent {
        Some(q) => {
            assert(q < i);
            if within(g, q as int, c) {
                lemma_within_is_below(g, q as int, c);
            }
            if q != p {
                lemma_one_step_below(g, q as int, p, c);
                assert(i != c);
                assert(step_below(g, i, p) == step_below(g, q as int, p));
            } else {
                assert(within(g, p, p));
                assert(step_below(g, i, p) == i);
            }
        },
        None => {},
    }
}

pub proof fn lemma_step_below_hangs(g: Seq<EntryView>, i: int, p: int)
    requires
        is_forest(g),
        0 <= i < g.len(),
        0 <= p < g.len(),
        i != p,
        within(g, i, p),
    ensures
        0 <= step_below(g, i, p) < g.len(),
        g[step_below(g, i, p)].parent == Some(p as u32),
    decreases i,
{
    match g[i].parent {
        Some(q) => {
            if q != p {
                lemma_step_below_hangs(g, q as int, p);
            }
        },
        None => {},
    }
}

/// What entry `i` adds to the children of `p` below `n`.
spec fn child_shares(g: Seq<EntryView>, p: int, n: nat, i: int, f: spec_fn(int) -> nat) -> nat {
    sum_where(
        n,
        |c: int| g[c].parent == Some(p as u32),
        |c: int| if within(g, i, c) { f(i) } else { 0 },
    )
}

proof fn lemma_one_child_share(g: Seq<EntryView>, p: int, n: nat, i: int, f: spec_fn(int) -> nat)
    requires
        is_forest(g),
        n <= g.len(),
        0 <= p < g.len(),
        0 <= i < g.len(),
    ensures
        child_shares(g, p, n, i, f) == if i != p && within(g, i, p) && step_below(g, i, p) < n {
            f(i)
        } else {
            0
        },
    decreases n,
{
    if i != p && within(g, i, p) {
        lemma_step_below_hangs(g, i, p);
    }
    if n > 0 {
        lemma_one_child_share(g, p, (n - 1) as nat, i, f);
        if g[n - 1].parent == Some(p as u32) {
            lemma_one_step_below(g, i, p, n - 1);
        }
    }
}

/// The sums of the children of `p` below `n` over the first `m` entries.
spec fn by_child(g: Seq<EntryView>, p: int, n: nat, m: nat, f: spec_fn(int) -> nat) -> nat {
    sum_where(n, |c: int| g[c].parent == Some(p as u32), |c: int| subtree_sum(g, c, f, m as int))
}

proof fn lemma_by_child_step(g: Seq<EntryView>, p: int, n: nat, m: nat, f: spec_fn(int) -> nat)
    ensures
        m > 0 ==> by_child(g, p, n, m, f) == by_child(g, p, n, (m - 1) as nat, f) + child_shares(
            g,
            p,
            n,
            m - 1,
            f,
        ),
        by_child(g, p, n, 0, f) == 0,
    decreases n,
{
    if n > 0 {
        lemma_by_child_step(g, p, (n - 1) as nat, m, f);
    }
}

proof fn lemma_children_cover(g: Seq<EntryView>, p: int, m: nat, f: spec_fn(int) -> nat)
    requires
        is_forest(g),
        0 <= p < g.len(),
        m <= g.len(),
    ensures
        subtree_sum(g, p, f, m as int) == by_child(g, p, g.len(), m, f) + if p < m {
            f(p)
        } else {
            0
        },
    decreases m,
{
    lemma_by_child_step(g, p, g.len(), m, f);
    if m > 0 {
        lemma_children_cover(g, p, (m - 1) as nat, f);
        lemma_one_child_share(g, p, g.len(), m - 1, f);
        if m - 1 != p && within(g, m - 1, p) {
            lemma_step_below_hangs(g, m - 1, p);
        }
    }
}

/// The size of an entry with everything below it is its own and those of the entries right below
/// it, as far as the number fits.
pub proof fn a_size_is_made_of_its_children(g: Seq<EntryView>, p: u32)
    requires
        is_forest(g),
        p < g.len(),
    ensures
        total_size(g, p as int) == capped(
            g[p as int].size as nat + sum_of_totals(
                g,
                children(g, p),
                |i: int| total_size(g, i) as nat,
            ),
            u64::MAX as nat,
        ),
{
    let f = |i: int| g[i].size as nat;
    let hangs = |c: int| g[c].parent == Some(p);
    lemma_children_cover(g, p as int, g.len(), f);
    lemma_selected_sum(
        g,
        g.len(),
        hangs,
        |i: int| total_size(g, i) as nat,
        |c: int| subtree_sum(g, c, f, g.len() as int),
        u64::MAX as nat,
    );
}

/// The allocated size of an entry with everything below it is its own and those of the entries right
/// below it, as far as the number fits.
pub proof fn an_allocation_is_made_of_its_children(g: Seq<EntryView>, p: u32)
    requires
        is_forest(g),
        p < g.len(),
    ensures
        total_allocated(g, p as int) == capped(
            g[p as int].allocated as nat + sum_of_totals(
                g,
                children(g, p),
                |i: int| total_allocated(g, i) as nat,
            ),
            u64::MAX as nat,
        ),
{
    let f = |i: int| g[i].allocated as nat;
    let hangs = |c: int| g[c].parent == Some(p);
    lemma_children_cover(g, p as int, g.len(), f);
    lemma_selected_sum(
        g,
        g.len(),
        hangs,
        |i: int| total_allocated(g, i) as nat,
        |c: int| subtree_sum(g, c, f, g.len() as int),
        u64::MAX as nat,
    );
}

proof fn lemma_sum_covers(g: Seq<EntryView>, c: int, p: int, f: spec_fn(int) -> nat, n: int)
    requires
        is_forest(g),
        0 <= c < g.len(),
        g[c].parent == Some(p as u32),
        0 <= p < g.len(),
        n <= g.len(),
    ensures
        subtree_sum(g, c, f, n) <= subtree_sum(g, p, f, n),
    decreases n,
{
    if n > 0 {
        lemma_sum_covers(g, c, p, f, n - 1);
        lemma_one_step_below(g, n - 1, p, c);
    }
}

/// What lies below an entry is no larger than the entry.
pub proof fn a_directory_is_as_large_as_its_parts(g: Seq<EntryView>, c: u32, p: u32)
    requires
        is_forest(g),
        c < g.len(),
        g[c as int].parent == Some(p),
    ensures
        total_size(g, c as int) <= total_size(g, p as int),
        total_allocated(g, c as int) <= total_allocated(g, p as int),
{
    lemma_sum_covers(g, c as int, p as int, |i: int| g[i].size as nat, g.len() as int);
    lemma_sum_covers(g, c as int, p as int, |i: int| g[i].allocated as nat, g.len() as int);
}

proof fn lemma_sum_covers_within(g: Seq<EntryView>, i: int, a: int, f: spec_fn(int) -> nat, n: int)
    requires
        is_forest(g),
        0 <= i < g.len(),
        0 <= a < g.len(),
        within(g, i, a),
        n <= g.len(),
    ensures
        subtree_sum(g, i, f, n) <= subtree_sum(g, a, f, n),
    decreases i,
{
    if i != a {
        let p = g[i].parent->0;
        lemma_sum_covers(g, i, p as int, f, n);
        lemma_sum_covers_within(g, p as int, a, f, n);
    }
}

/// An entry is no larger than any entry above it, and takes no more room.
pub proof fn an_entry_fits_into_those_above(g: Seq<EntryView>, i: u32, a: u32)
    requires
        is_forest(g),
        i < g.len(),
        a < g.len(),
        within(g, i as int, a as int),
    ensures
        total_size(g, i as int) <= total_size(g, a as int),
        total_allocated(g, i as int) <= total_allocated(g, a as int),
        g[i as int].size <= total_size(g, a as int),
        g[i as int].allocated <= total_allocated(g, a as int),
{
    let sizes = |j: int| g[j].size as nat;
    let allocations = |j: int| g[j].allocated as nat;
    lemma_sum_covers_within(g, i as int, a as int, sizes, g.len() as int);
    lemma_sum_covers_within(g, i as int, a as int, allocations, g.len() as int);
    lemma_own_counts(g, i as int, sizes, g.len() as int);
    lemma_own_counts(g, i as int, allocations, g.len() as int);
}

proof fn lemma_own_counts(g: Seq<EntryView>, i: int, f: spec_fn(int) -> nat, n: int)
    requires
        0 <= i < n,
    ensures
        f(i) <= subtree_sum(g, i, f, n),
    decreases n,
{
    if n - 1 > i {
        lemma_own_counts(g, i, f, n - 1);
    }
}

proof fn lemma_count_fits(g: Seq<EntryView>, i: int, n: int)
    ensures
        n >= 0 ==> subtree_sum(g, i, |j: int| 1nat, n) <= n,
    decreases n,
{
    if n > 0 {
        lemma_count_fits(g, i, n - 1);
    }
}

/// As many entries lie below an entry as hang on it, and as lie below those.
pub proof fn what_lies_below_hangs_or_lies_deeper(g: Seq<EntryView>, p: u32)
    requires
        is_forest(g),
        p < g.len(),
    ensures
        descendants(g, p as int) == sum_of_totals(
            g,
            children(g, p),
            |i: int| 1 + descendants(g, i) as nat,
        ),
{
    let f = |j: int| 1nat;
    let n = g.len() as int;
    let max = u32::MAX as nat + 1;
    lemma_children_cover(g, p as int, g.len(), f);
    let total = |i: int| 1 + descendants(g, i) as nat;
    let whole = |c: int| subtree_sum(g, c, f, n);
    assert forall|i: int| 0 <= i < g.len() implies #[trigger] total(i) == capped(whole(i), max) by {
        lemma_count_fits(g, i, n);
        lemma_own_counts(g, i, f, n);
    }
    lemma_count_fits(g, p as int, n);
    lemma_own_counts(g, p as int, f, n);
    assert forall|i: int| 0 <= i < g.len() implies #[trigger] whole(i) <= g.len() by {
        lemma_count_fits(g, i, n);
    }
    lemma_totals_fit(g, g.len(), |c: int| g[c].parent == Some(p), total, whole);
}

proof fn lemma_totals_fit(
    g: Seq<EntryView>,
    n: nat,
    p: spec_fn(int) -> bool,
    total: spec_fn(int) -> nat,
    whole: spec_fn(int) -> nat,
)
    requires
        n <= g.len(),
        g.len() <= u32::MAX + 1,
        forall|i: int| 0 <= i < n ==> #[trigger] total(i) == capped(whole(i), u32::MAX as nat + 1),
        forall|i: int| 0 <= i < n ==> #[trigger] whole(i) <= g.len(),
    ensures
        sum_of_totals(g, select(n, p), total) == sum_where(n, p, whole),
    decreases n,
{
    if n > 0 {
        lemma_totals_fit(g, (n - 1) as nat, p, total, whole);
        if p(n - 1) {
            let ids = select(n, p);
            assert(ids.drop_last() =~= select((n - 1) as nat, p));
            assert(ids.last() == (n - 1) as u32);
            assert(total(n - 1) == capped(whole(n - 1), u32::MAX as nat + 1));
            assert(whole(n - 1) <= g.len());
        }
    }
}

/// What is kept of an entry's sizes: its own, and the sums over it and all that lies below it as far
/// as they can be counted, and how many entries that are besides itself.
pub proof fn an_entrys_numbers_are_its_own_and_its_sums(g: Seq<EntryView>, i: int)
    requires
        g.len() <= u32::MAX + 1,
        0 <= i < g.len(),
    ensures
        ({
            let stats = stats_of(g, i);
            let n = g.len() as int;
            &&& stats.own_size.0 == g[i].size
            &&& stats.own_allocated.0 == g[i].allocated
            &&& stats.total_size.0 == capped(
                subtree_sum(g, i, |j: int| g[j].size as nat, n),
                u64::MAX as nat,
            )
            &&& stats.total_allocated.0 == capped(
                subtree_sum(g, i, |j: int| g[j].allocated as nat, n),
                u64::MAX as nat,
            )
            &&& stats.descendants + 1 == subtree_sum(g, i, |j: int| 1nat, n)
        }),
{
    lemma_count_fits(g, i, g.len() as int);
    lemma_own_counts(g, i, |j: int| 1nat, g.len() as int);
}

} // verus!
