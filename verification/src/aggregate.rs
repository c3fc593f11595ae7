//! Adding up the columns of a forest: every entry's value and those of everything below it.

use vstd::prelude::*;

use crate::graph::{capped, is_forest, parent_view, subtree_sum, within, EntryId, EntryView};

verus! {

/// Whether `i` is the parent of `k`.
pub open spec fn hangs_on(g: Seq<EntryView>, k: int, i: int) -> bool {
    g[k].parent matches Some(p) && p == i
}

/// Whether `j` is `i`, or leads up to `i` over entries that are all numbered `k` or more.
pub open spec fn reaches(g: Seq<EntryView>, j: int, i: int, k: int) -> bool
    decreases j,
{
    j == i || (0 <= j < g.len() && j >= k && match g[j].parent {
        Some(p) => p < j && reaches(g, p as int, i, k),
        None => false,
    })
}

/// The sum of `f` over the first `n` entries that reach `i` over entries numbered `k` or more.
pub open spec fn reach_sum(g: Seq<EntryView>, i: int, k: int, f: spec_fn(int) -> nat, n: int) -> nat
    decreases n,
{
    if n <= 0 {
        0
    } else {
        reach_sum(g, i, k, f, n - 1) + if reaches(g, n - 1, i, k) {
            f(n - 1)
        } else {
            0
        }
    }
}

proof fn lemma_reaches_below(g: Seq<EntryView>, j: int, i: int, k: int)
    requires
        is_forest(g),
        j < i,
    ensures
        !reaches(g, j, i, k),
        !within(g, j, i),
    decreases j,
{
    if 0 <= j < g.len() {
        if let Some(p) = g[j].parent {
            lemma_reaches_below(g, p as int, i, k);
        }
    }
}

/// Letting entry `k` lead up to its parent `p` adds to `p` what reaches `k`, and changes nothing else.
proof fn lemma_reaches_step(g: Seq<EntryView>, j: int, i: int, k: int)
    requires
        is_forest(g),
        0 <= k < g.len(),
        0 <= j < g.len(),
    ensures
        !hangs_on(g, k, i) ==> reaches(g, j, i, k) == reaches(g, j, i, k + 1),
        hangs_on(g, k, i) ==> {
            &&& reaches(g, j, i, k) == (reaches(g, j, i, k + 1) || reaches(g, j, k, k + 1))
            &&& !(reaches(g, j, i, k + 1) && reaches(g, j, k, k + 1))
        },
    decreases j,
{
    if let Some(p) = g[j].parent {
        lemma_reaches_step(g, p as int, i, k);
        if j == k && p != i {
            lemma_reaches_up(g, p as int, i, k);
        }
    }
    if hangs_on(g, k, i) && j < k {
        lemma_reaches_below(g, j, k, k + 1);
    }
}

proof fn lemma_reaches_up(g: Seq<EntryView>, p: int, i: int, k: int)
    requires
        p < k,
        p != i,
    ensures
        !reaches(g, p, i, k),
{
}

proof fn lemma_sum_step(g: Seq<EntryView>, i: int, k: int, f: spec_fn(int) -> nat, n: int)
    requires
        is_forest(g),
        0 <= k < g.len(),
        0 <= n <= g.len(),
    ensures
        !hangs_on(g, k, i) ==> reach_sum(g, i, k, f, n) == reach_sum(
            g,
            i,
            k + 1,
            f,
            n,
        ),
        hangs_on(g, k, i) ==> reach_sum(g, i, k, f, n) == reach_sum(
            g,
            i,
            k + 1,
            f,
            n,
        ) + reach_sum(g, k, k + 1, f, n),
    decreases n,
{
    if n > 0 {
        lemma_sum_step(g, i, k, f, n - 1);
        lemma_reaches_step(g, n - 1, i, k);
    }
}

/// With no entry leading anywhere, only `i` itself counts.
proof fn lemma_sum_alone(g: Seq<EntryView>, i: int, f: spec_fn(int) -> nat, n: int)
    requires
        is_forest(g),
        0 <= i < g.len(),
        0 <= n <= g.len(),
    ensures
        reach_sum(g, i, g.len() as int, f, n) == if i < n {
            f(i)
        } else {
            0
        },
    decreases n,
{
    if n > 0 {
        lemma_sum_alone(g, i, f, n - 1);
    }
}

proof fn lemma_reaches_is_within(g: Seq<EntryView>, j: int, i: int)
    ensures
        reaches(g, j, i, 0) == within(g, j, i),
    decreases j,
{
    if 0 <= j < g.len() {
        if let Some(p) = g[j].parent {
            if p < j {
                lemma_reaches_is_within(g, p as int, i);
            }
        }
    }
}

/// With every entry leading up to its parent, the whole subtree counts.
proof fn lemma_sum_is_subtree(g: Seq<EntryView>, i: int, f: spec_fn(int) -> nat, n: int)
    ensures
        reach_sum(g, i, 0, f, n) == subtree_sum(g, i, f, n),
    decreases n,
{
    if n > 0 {
        lemma_sum_is_subtree(g, i, f, n - 1);
        lemma_reaches_is_within(g, n - 1, i);
    }
}

/// For every entry, the sum of `values` over it and everything below it, stopping at the largest
/// number.
pub fn subtree_totals(parents: &Vec<Option<EntryId>>, values: &Vec<u64>, Ghost(g): Ghost<Seq<EntryView>>) -> (totals: Vec<u64>)
    requires
        is_forest(g),
        parents@.len() == g.len(),
        values@.len() == g.len(),
        forall|i: int| 0 <= i < g.len() ==> parent_view(parents@[i]) == (#[trigger] g[i]).parent,
    ensures
        totals@.len() == g.len(),
        forall|i: int|
            0 <= i < g.len() ==> #[trigger] totals@[i] == capped(
                subtree_sum(g, i, |j: int| values@[j] as nat, g.len() as int),
                u64::MAX as nat,
            ),
{
    let ghost n = g.len() as int;
    let ghost f = |j: int| values@[j] as nat;
    let mut totals: Vec<u64> = Vec::new();
    let mut idx: usize = 0;
    while idx < values.len()
        invariant
            idx <= values@.len(),
            totals@ == values@.take(idx as int),
        decreases values@.len() - idx,
    {
        totals.push(values[idx]);
        idx += 1;
        assert(totals@ =~= values@.take(idx as int));
    }
    assert(totals@ =~= values@);
    let mut k: usize = parents.len();
    proof {
        assert forall|i: int| 0 <= i < n implies #[trigger] totals@[i] == capped(
            reach_sum(g, i, k as int, f, n),
            u64::MAX as nat,
        ) by {
            lemma_sum_alone(g, i, f, n);
        }
    }
    while k > 0
        invariant
            k <= n,
            n == g.len(),
            is_forest(g),
            parents@.len() == n,
            totals@.len() == n,
            f == (|j: int| values@[j] as nat),
            forall|i: int| 0 <= i < g.len() ==> parent_view(parents@[i]) == (#[trigger] g[i]).parent,
            forall|i: int|
                0 <= i < n ==> #[trigger] totals@[i] == capped(
                    reach_sum(g, i, k as int, f, n),
                    u64::MAX as nat,
                ),
        decreases k,
    {
        k -= 1;
        let ghost before = totals@;
        assert(parent_view(parents@[k as int]) == g[k as int].parent);
        if let Some(parent) = parents[k] {
            let above = parent.0 as usize;
            let sum: u64 = totals[above].saturating_add(totals[k]);
            totals.set(above, sum);
        }
        proof {
            assert forall|i: int| 0 <= i < n implies #[trigger] totals@[i] == capped(
                reach_sum(g, i, k as int, f, n),
                u64::MAX as nat,
            ) by {
                lemma_sum_step(g, i, k as int, f, n);
                assert(before[i] == capped(reach_sum(g, i, k + 1, f, n), u64::MAX as nat));
                assert(before[k as int] == capped(reach_sum(g, k as int, k + 1, f, n), u64::MAX as nat));
            }
        }
    }
    proof {
        assert forall|i: int| 0 <= i < n implies #[trigger] totals@[i] == capped(
            subtree_sum(g, i, f, n),
            u64::MAX as nat,
        ) by {
            lemma_sum_is_subtree(g, i, f, n);
        }
    }
    totals
}

proof fn lemma_reach_count(g: Seq<EntryView>, i: int, k: int, n: int)
    requires
        0 <= i < n,
    ensures
        reach_sum(g, i, k, |j: int| 1, n) >= 1,
    decreases n,
{
    if i < n - 1 {
        lemma_reach_count(g, i, k, n - 1);
    }
}

/// For every entry, how many entries lie below it, stopping at the largest number.
pub fn subtree_counts(parents: &Vec<Option<EntryId>>, Ghost(g): Ghost<Seq<EntryView>>) -> (counts: Vec<
    u32,
>)
    requires
        is_forest(g),
        parents@.len() == g.len(),
        forall|i: int|
            0 <= i < g.len() ==> parent_view(parents@[i]) == (#[trigger] g[i]).parent,
    ensures
        counts@.len() == g.len(),
        forall|i: int|
            0 <= i < g.len() ==> #[trigger] counts@[i] == capped(
                (subtree_sum(g, i, |j: int| 1, g.len() as int) - 1) as nat,
                u32::MAX as nat,
            ),
{
    let ghost n = g.len() as int;
    let ghost f = |j: int| 1nat;
    let mut counts: Vec<u32> = Vec::new();
    let mut idx: usize = 0;
    while idx < parents.len()
        invariant
            idx <= parents@.len(),
            counts@.len() == idx,
            forall|i: int| 0 <= i < idx ==> counts@[i] == 0,
        decreases parents@.len() - idx,
    {
        counts.push(0);
        idx += 1;
    }
    let mut k: usize = parents.len();
    proof {
        assert forall|i: int| 0 <= i < n implies #[trigger] counts@[i] == capped(
            (reach_sum(g, i, k as int, f, n) - 1) as nat,
            u32::MAX as nat,
        ) by {
            lemma_sum_alone(g, i, f, n);
        }
    }
    while k > 0
        invariant
            k <= n,
            n == g.len(),
            is_forest(g),
            parents@.len() == n,
            counts@.len() == n,
            f == (|j: int| 1nat),
            forall|i: int|
                0 <= i < g.len() ==> parent_view(parents@[i]) == (#[trigger] g[i]).parent,
            forall|i: int|
                0 <= i < n ==> #[trigger] counts@[i] == capped(
                    (reach_sum(g, i, k as int, f, n) - 1) as nat,
                    u32::MAX as nat,
                ),
        decreases k,
    {
        k -= 1;
        let ghost before = counts@;
        assert(parent_view(parents@[k as int]) == g[k as int].parent);
        if let Some(parent) = parents[k] {
            let above = parent.0 as usize;
            let sum: u32 = counts[above].saturating_add(counts[k]).saturating_add(1);
            counts.set(above, sum);
        }
        proof {
            assert forall|i: int| 0 <= i < n implies #[trigger] counts@[i] == capped(
                (reach_sum(g, i, k as int, f, n) - 1) as nat,
                u32::MAX as nat,
            ) by {
                lemma_sum_step(g, i, k as int, f, n);
                lemma_reach_count(g, i, k + 1, n);
                lemma_reach_count(g, k as int, k + 1, n);
                assert(before[i] == capped(
                    (reach_sum(g, i, k + 1, f, n) - 1) as nat,
                    u32::MAX as nat,
                ));
                assert(before[k as int] == capped(
                    (reach_sum(g, k as int, k + 1, f, n) - 1) as nat,
                    u32::MAX as nat,
                ));
            }
        }
    }
    proof {
        assert forall|i: int| 0 <= i < n implies #[trigger] counts@[i] == capped(
            (subtree_sum(g, i, f, n) - 1) as nat,
            u32::MAX as nat,
        ) by {
            lemma_sum_is_subtree(g, i, f, n);
        }
    }
    counts
}

/// A subtree's sum depends on what is added up for its entries alone.
pub proof fn lemma_subtree_sum_agrees(
    g: Seq<EntryView>,
    i: int,
    f: spec_fn(int) -> nat,
    h: spec_fn(int) -> nat,
    n: int,
)
    requires
        forall|j: int| 0 <= j < n ==> #[trigger] f(j) == h(j),
    ensures
        subtree_sum(g, i, f, n) == subtree_sum(g, i, h, n),
    decreases n,
{
    if n > 0 {
        lemma_subtree_sum_agrees(g, i, f, h, n - 1);
        assert(f(n - 1) == h(n - 1));
    }
}

} // verus!
