//! The orders in which entries are listed.

use vstd::prelude::*;

use crate::graph::{capped, is_directory, raw_ids, subtree_sum, total_allocated, total_size, EntryFlags,
    EntryId, EntryView, FileGraph};
use crate::order::{is_text_before, lemma_same_members, sort_ids, text_before, text_order_is_total,
    text_order_is_transitive, Ranking};
use crate::text::{lower_all, to_ascii_lowercase};

verus! {

/// What entries are listed by.
#[derive(Debug, Clone, Copy, PartialEq, Eq, Structural)]
pub enum SortKey {
    Name,
    Size,
    Allocated,
    Modified,
}

/// In which direction entries are listed.
#[derive(Debug, Clone, Copy, PartialEq, Eq, Structural)]
pub enum SortOrder {
    Ascending,
    Descending,
}

/// What an order goes by.
#[derive(Debug, Clone, Copy, PartialEq, Eq, Structural)]
pub enum OrderKey {
    /// The name, with ASCII capitals made small.
    Name,
    /// The size shown: of a directory with everything below it, of anything else its own.
    ShownSize,
    /// The allocated size shown.
    ShownAllocated,
    /// The time of the last change.
    Modified,
    /// The size with everything below.
    TotalSize,
    /// The size without anything below.
    OwnSize,
}

/// An order of entries: by the key, up or down, then by name where `by_name`, then by number.
#[derive(Debug, Clone, Copy, PartialEq, Eq, Structural)]
pub struct EntryOrder {
    pub key: OrderKey,
    pub descending: bool,
    pub by_name: bool,
}

/// The number that an entry is ordered by.
pub open spec fn order_value(g: Seq<EntryView>, key: OrderKey, i: int) -> int {
    if i < 0 || i >= g.len() {
        0
    } else {
        match key {
            OrderKey::Name => 0,
            OrderKey::ShownSize => if is_directory(g[i].flags) {
                total_size(g, i) as int
            } else {
                g[i].size as int
            },
            OrderKey::ShownAllocated => if is_directory(g[i].flags) {
                total_allocated(g, i) as int
            } else {
                g[i].allocated as int
            },
            OrderKey::Modified => g[i].modified as int,
            OrderKey::TotalSize => total_size(g, i) as int,
            OrderKey::OwnSize => g[i].size as int,
        }
    }
}

/// The name of an entry, empty where there is no such entry.
pub open spec fn name_of(g: Seq<EntryView>, i: int) -> Seq<char> {
    if 0 <= i < g.len() {
        g[i].name
    } else {
        Seq::empty()
    }
}

/// Whether entry `a` stands before entry `b` by the key alone, counting up.
pub open spec fn key_before(g: Seq<EntryView>, key: OrderKey, a: int, b: int) -> bool {
    if key == OrderKey::Name {
        text_before(lower_all(name_of(g, a)), lower_all(name_of(g, b)))
    } else {
        order_value(g, key, a) < order_value(g, key, b)
    }
}

/// Whether entry `a` stands before entry `b`, or is it.
pub open spec fn stands_before(g: Seq<EntryView>, order: EntryOrder, a: u32, b: u32) -> bool {
    let (x, y) = if order.descending {
        (b as int, a as int)
    } else {
        (a as int, b as int)
    };
    if key_before(g, order.key, x, y) {
        true
    } else if key_before(g, order.key, y, x) {
        false
    } else if order.by_name && text_before(name_of(g, a as int), name_of(g, b as int)) {
        true
    } else if order.by_name && text_before(name_of(g, b as int), name_of(g, a as int)) {
        false
    } else {
        a <= b
    }
}

proof fn lemma_key_order(g: Seq<EntryView>, key: OrderKey, a: int, b: int, c: int)
    ensures
        !(key_before(g, key, a, b) && key_before(g, key, b, a)),
        key_before(g, key, a, b) && key_before(g, key, b, c) ==> key_before(g, key, a, c),
        !key_before(g, key, a, b) && !key_before(g, key, b, a) && key_before(g, key, b, c)
            ==> key_before(g, key, a, c),
        key_before(g, key, a, b) && !key_before(g, key, b, c) && !key_before(g, key, c, b)
            ==> key_before(g, key, a, c),
        !key_before(g, key, a, b) && !key_before(g, key, b, a) && !key_before(g, key, b, c)
            && !key_before(g, key, c, b) ==> !key_before(g, key, a, c) && !key_before(g, key, c, a),
{
    if key == OrderKey::Name {
        let x = lower_all(name_of(g, a));
        let y = lower_all(name_of(g, b));
        let z = lower_all(name_of(g, c));
        lemma_text_order(x, y, z);
    }
}

proof fn lemma_text_order(x: Seq<char>, y: Seq<char>, z: Seq<char>)
    ensures
        !(text_before(x, y) && text_before(y, x)),
        text_before(x, y) && text_before(y, z) ==> text_before(x, z),
        !text_before(x, y) && !text_before(y, x) ==> x == y,
        !text_before(y, z) && !text_before(z, y) ==> y == z,
        x == z ==> !text_before(x, z),
{
    text_order_is_total(x, y);
    text_order_is_total(y, z);
    text_order_is_total(x, z);
    if text_before(x, y) && text_before(y, z) {
        text_order_is_transitive(x, y, z);
    }
}

/// The order of entries is total: of two entries one stands before the other, and only one unless
/// they are the same.
pub proof fn entry_order_is_total(g: Seq<EntryView>, order: EntryOrder, a: u32, b: u32)
    ensures
        stands_before(g, order, a, b) || stands_before(g, order, b, a),
        stands_before(g, order, a, b) && stands_before(g, order, b, a) ==> a == b,
{
    lemma_key_order(g, order.key, a as int, b as int, a as int);
    lemma_text_order(name_of(g, a as int), name_of(g, b as int), name_of(g, a as int));
}

/// The order of entries is transitive.
pub proof fn entry_order_is_transitive(g: Seq<EntryView>, order: EntryOrder, a: u32, b: u32, c: u32)
    requires
        stands_before(g, order, a, b),
        stands_before(g, order, b, c),
    ensures
        stands_before(g, order, a, c),
{
    lemma_key_order(g, order.key, a as int, b as int, c as int);
    lemma_key_order(g, order.key, c as int, b as int, a as int);
    lemma_key_order(g, order.key, a as int, c as int, b as int);
    lemma_text_order(name_of(g, a as int), name_of(g, b as int), name_of(g, c as int));
    lemma_text_order(name_of(g, c as int), name_of(g, b as int), name_of(g, a as int));
    lemma_text_order(name_of(g, a as int), name_of(g, c as int), name_of(g, b as int));
}

/// The order of a graph's entries.
pub struct EntryRanking<'a> {
    pub graph: &'a FileGraph,
    pub order: EntryOrder,
}

impl<'a> EntryRanking<'a> {
    fn value(&self, id: u32) -> (r: i128)
        requires
            self.graph.wf(),
        ensures
            r == order_value(self.graph@, self.order.key, id as int),
    {
        match (self.graph.stats(EntryId(id)), self.graph.entry(EntryId(id))) {
            (Some(stats), Some(entry)) => {
                let directory = entry.flags.contains(EntryFlags::DIRECTORY);
                match self.order.key {
                    OrderKey::Name => 0,
                    OrderKey::ShownSize => if directory {
                        stats.total_size.bytes() as i128
                    } else {
                        stats.own_size.bytes() as i128
                    },
                    OrderKey::ShownAllocated => if directory {
                        stats.total_allocated.bytes() as i128
                    } else {
                        stats.own_allocated.bytes() as i128
                    },
                    OrderKey::Modified => entry.modified_unix as i128,
                    OrderKey::TotalSize => stats.total_size.bytes() as i128,
                    OrderKey::OwnSize => stats.own_size.bytes() as i128,
                }
            },
            _ => 0,
        }
    }

    fn name(&self, id: u32) -> (r: String)
        requires
            self.graph.wf(),
        ensures
            r@ == name_of(self.graph@, id as int),
    {
        match self.graph.name(EntryId(id)) {
            Some(name) => name.to_owned(),
            None => String::new(),
        }
    }

    fn is_key_before(&self, a: u32, b: u32) -> (r: bool)
        requires
            self.graph.wf(),
        ensures
            r == key_before(self.graph@, self.order.key, a as int, b as int),
    {
        match self.order.key {
            OrderKey::Name => {
                let left = to_ascii_lowercase(&self.name(a));
                let right = to_ascii_lowercase(&self.name(b));
                is_text_before(&left, &right)
            },
            _ => self.value(a) < self.value(b),
        }
    }
}

impl<'a> Ranking for EntryRanking<'a> {
    open spec fn knows(&self, a: u32) -> bool {
        self.graph.wf()
    }

    open spec fn at_most(&self, a: u32, b: u32) -> bool {
        stands_before(self.graph@, self.order, a, b)
    }

    proof fn total(&self, a: u32, b: u32) {
        entry_order_is_total(self.graph@, self.order, a, b);
    }

    proof fn transitive(&self, a: u32, b: u32, c: u32) {
        entry_order_is_transitive(self.graph@, self.order, a, b, c);
    }

    fn in_order(&self, a: u32, b: u32) -> (r: bool) {
        let (x, y) = if self.order.descending {
            (b, a)
        } else {
            (a, b)
        };
        if self.is_key_before(x, y) {
            return true;
        }
        if self.is_key_before(y, x) {
            return false;
        }
        if self.order.by_name {
            let left = self.name(a);
            let right = self.name(b);
            if is_text_before(&left, &right) {
                return true;
            }
            if is_text_before(&right, &left) {
                return false;
            }
        }
        a <= b
    }
}

/// Whether the list is in order.
pub open spec fn in_entry_order(g: Seq<EntryView>, order: EntryOrder, s: Seq<u32>) -> bool {
    forall|i: int, j: int|
        0 <= i < j < s.len() ==> stands_before(g, order, #[trigger] s[i], #[trigger] s[j])
}

/// Whether `sorted` is `ids` in order: the same numbers, each as often.
pub open spec fn is_sorted(g: Seq<EntryView>, order: EntryOrder, ids: Seq<u32>, sorted: Seq<u32>) -> bool {
    &&& sorted.to_multiset() == ids.to_multiset()
    &&& in_entry_order(g, order, sorted)
}

/// The numbers in order.
pub fn sort_raw(graph: &FileGraph, order: EntryOrder, ids: &Vec<u32>) -> (r: Vec<u32>)
    requires
        graph.wf(),
    ensures
        is_sorted(graph@, order, ids@, r@),
{
    let ranking = EntryRanking { graph, order };
    sort_ids(&ranking, ids)
}

/// There is only one way to sort a list.
pub proof fn sorting_is_unique(
    g: Seq<EntryView>,
    order: EntryOrder,
    ids: Seq<u32>,
    a: Seq<u32>,
    b: Seq<u32>,
)
    requires
        is_sorted(g, order, ids, a),
        is_sorted(g, order, ids, b),
    ensures
        a == b,
    decreases a.len(),
{
    lemma_same_members(a, b);
    if a.len() == 0 {
        assert(a =~= b);
    } else {
        let x = a[0];
        let y = b[0];
        assert(b.contains(y) && a.contains(x));
        let i = choose|i: int| 0 <= i < a.len() && a[i] == y;
        let j = choose|j: int| 0 <= j < b.len() && b[j] == x;
        if x != y {
            assert(stands_before(g, order, a[0], a[i]));
            assert(stands_before(g, order, b[0], b[j]));
            entry_order_is_total(g, order, x, y);
        }
        let a1 = a.drop_first();
        let b1 = b.drop_first();
        assert(a =~= seq![x] + a1);
        assert(b =~= seq![x] + b1);
        vstd::seq_lib::lemma_multiset_commutative(seq![x], a1);
        vstd::seq_lib::lemma_multiset_commutative(seq![x], b1);
        let one = seq![x].to_multiset();
        assert(a1.to_multiset() =~= b1.to_multiset()) by {
            assert forall|z: u32| a1.to_multiset().count(z) == b1.to_multiset().count(z) by {
                assert(one.add(a1.to_multiset()).count(z) == one.add(b1.to_multiset()).count(z));
            }
        }
        assert(in_entry_order(g, order, a1)) by {
            assert forall|i: int, j: int| 0 <= i < j < a1.len() implies stands_before(
                g,
                order,
                #[trigger] a1[i],
                #[trigger] a1[j],
            ) by {
                assert(stands_before(g, order, a[i + 1], a[j + 1]));
            }
        }
        assert(in_entry_order(g, order, b1)) by {
            assert forall|i: int, j: int| 0 <= i < j < b1.len() implies stands_before(
                g,
                order,
                #[trigger] b1[i],
                #[trigger] b1[j],
            ) by {
                assert(stands_before(g, order, b[i + 1], b[j + 1]));
            }
        }
        sorting_is_unique(g, order, a1, a1, b1);
    }
}

/// The raw numbers of the entries.
pub fn unwrap_ids(ids: &Vec<EntryId>) -> (r: Vec<u32>)
    ensures
        r@ == raw_ids(ids@),
{
    let mut r: Vec<u32> = Vec::new();
    let mut i: usize = 0;
    while i < ids.len()
        invariant
            i <= ids@.len(),
            r@ == raw_ids(ids@.take(i as int)),
        decreases ids@.len() - i,
    {
        r.push(ids[i].0);
        i += 1;
        assert(r@ =~= raw_ids(ids@.take(i as int)));
    }
    assert(ids@.take(ids@.len() as int) =~= ids@);
    r
}

/// The entries with these numbers.
pub fn wrap_ids(ids: &Vec<u32>) -> (r: Vec<EntryId>)
    ensures
        raw_ids(r@) == ids@,
{
    let mut r: Vec<EntryId> = Vec::new();
    let mut i: usize = 0;
    while i < ids.len()
        invariant
            i <= ids@.len(),
            raw_ids(r@) == ids@.take(i as int),
        decreases ids@.len() - i,
    {
        let ghost shown = r@;
        r.push(EntryId(ids[i]));
        i += 1;
        assert(raw_ids(r@) =~= raw_ids(shown).push(ids@[i - 1]));
        assert(raw_ids(r@) =~= ids@.take(i as int));
    }
    assert(ids@.take(ids@.len() as int) =~= ids@);
    r
}

/// The order that a key and a direction ask for: ties go by name.
pub open spec fn order_for(key: SortKey, descending: bool) -> EntryOrder {
    EntryOrder {
        key: match key {
            SortKey::Name => OrderKey::Name,
            SortKey::Size => OrderKey::ShownSize,
            SortKey::Allocated => OrderKey::ShownAllocated,
            SortKey::Modified => OrderKey::Modified,
        },
        descending,
        by_name: true,
    }
}

/// The order that a key and a direction ask for: ties go by name.
pub fn entry_order(key: SortKey, descending: bool) -> (r: EntryOrder)
    ensures
        r == order_for(key, descending),
{
    EntryOrder {
        key: match key {
            SortKey::Name => OrderKey::Name,
            SortKey::Size => OrderKey::ShownSize,
            SortKey::Allocated => OrderKey::ShownAllocated,
            SortKey::Modified => OrderKey::Modified,
        },
        descending,
        by_name: true,
    }
}

/// Sorts entries by a key.
pub fn sort_entries(graph: &FileGraph, ids: &mut Vec<EntryId>, key: SortKey, order: SortOrder)
    requires
        graph.wf(),
    ensures
        is_sorted(
            graph@,
            order_for(key, order == SortOrder::Descending),
            raw_ids(old(ids)@),
            raw_ids(final(ids)@),
        ),
{
    let descending = match order {
        SortOrder::Ascending => false,
        SortOrder::Descending => true,
    };
    let raw = unwrap_ids(ids);
    let sorted = sort_raw(graph, entry_order(key, descending), &raw);
    *ids = wrap_ids(&sorted);
}

/// The order of the largest entries first, by this key.
pub open spec fn largest_first(key: OrderKey) -> EntryOrder {
    EntryOrder { key, descending: true, by_name: false }
}

/// Whether `top` is the first `limit` of the numbers, the largest by the key first.
pub open spec fn is_top(
    g: Seq<EntryView>,
    key: OrderKey,
    ids: Seq<u32>,
    limit: int,
    top: Seq<u32>,
) -> bool {
    exists|sorted: Seq<u32>| #[trigger]
        is_sorted(g, largest_first(key), ids, sorted) && top == sorted.take(
            if limit < sorted.len() {
                limit
            } else {
                sorted.len() as int
            },
        )
}

/// The largest entries are among those that were given.
pub proof fn the_top_is_picked(g: Seq<EntryView>, key: OrderKey, ids: Seq<u32>, limit: int, top: Seq<u32>)
    requires
        is_top(g, key, ids, limit, top),
        limit >= 0,
    ensures
        forall|k: int| 0 <= k < top.len() ==> ids.contains(#[trigger] top[k]),
        top.len() == if limit < ids.len() {
            limit
        } else {
            ids.len() as int
        },
{
    let sorted = choose|sorted: Seq<u32>| #[trigger]
        is_sorted(g, largest_first(key), ids, sorted) && top == sorted.take(
            if limit < sorted.len() {
                limit
            } else {
                sorted.len() as int
            },
        );
    lemma_same_members(sorted, ids);
    assert forall|k: int| 0 <= k < top.len() implies ids.contains(#[trigger] top[k]) by {
        assert(sorted.contains(sorted[k]));
    }
}

fn top_entries(graph: &FileGraph, ids: &Vec<EntryId>, key: OrderKey, limit: usize) -> (r: Vec<EntryId>)
    requires
        graph.wf(),
    ensures
        is_top(graph@, key, raw_ids(ids@), limit as int, raw_ids(r@)),
{
    let raw = unwrap_ids(ids);
    let mut sorted = sort_raw(
        graph,
        EntryOrder { key, descending: true, by_name: false },
        &raw,
    );
    let ghost all = sorted@;
    sorted.truncate(limit);
    assert(is_sorted(graph@, largest_first(key), raw_ids(ids@), all));
    proof {
        if limit >= all.len() {
            assert(all.take(all.len() as int) =~= all);
        } else {
            assert(all.subrange(0, limit as int) =~= all.take(limit as int));
        }
    }
    wrap_ids(&sorted)
}

/// The `limit` entries with the largest sizes below them, the largest first, ties by number.
#[must_use]
pub fn top_entries_by_total_size(graph: &FileGraph, ids: &Vec<EntryId>, limit: usize) -> (r: Vec<
    EntryId,
>)
    requires
        graph.wf(),
    ensures
        is_top(graph@, OrderKey::TotalSize, raw_ids(ids@), limit as int, raw_ids(r@)),
{
    top_entries(graph, ids, OrderKey::TotalSize, limit)
}

/// The `limit` entries with the largest sizes of their own, the largest first, ties by number.
#[must_use]
pub fn top_entries_by_own_size(graph: &FileGraph, ids: &Vec<EntryId>, limit: usize) -> (r: Vec<EntryId>)
    requires
        graph.wf(),
    ensures
        is_top(graph@, OrderKey::OwnSize, raw_ids(ids@), limit as int, raw_ids(r@)),
{
    top_entries(graph, ids, OrderKey::OwnSize, limit)
}

// ---------------------------------------------------------------------------------------------
// Laws of lists
// ---------------------------------------------------------------------------------------------

/// The number that a list by size shows for an entry: for a directory the sum over all that lies below
/// it, as far as it can be counted, and for anything else its own.
pub open spec fn size_in_list(g: Seq<EntryView>, i: int) -> nat {
    if g[i].flags % 2 == 1 {
        capped(subtree_sum(g, i, |j: int| g[j].size as nat, g.len() as int), u64::MAX as nat)
    } else {
        g[i].size as nat
    }
}

/// The number that a list by allocated size shows for an entry.
pub open spec fn allocated_in_list(g: Seq<EntryView>, i: int) -> nat {
    if g[i].flags % 2 == 1 {
        capped(subtree_sum(g, i, |j: int| g[j].allocated as nat, g.len() as int), u64::MAX as nat)
    } else {
        g[i].allocated as nat
    }
}

/// In a list that was sorted downwards, no entry has more of what the list goes by than one before it.
pub proof fn a_list_sorted_down_never_grows(
    g: Seq<EntryView>,
    key: SortKey,
    ids: Seq<u32>,
    sorted: Seq<u32>,
    j: int,
    k: int,
)
    requires
        is_sorted(g, order_for(key, true), ids, sorted),
        0 <= j < k < sorted.len(),
        sorted[j] < g.len(),
        sorted[k] < g.len(),
    ensures
        key == SortKey::Size ==> size_in_list(g, sorted[j] as int) >= size_in_list(g, sorted[k] as int),
        key == SortKey::Allocated ==> allocated_in_list(g, sorted[j] as int) >= allocated_in_list(
            g,
            sorted[k] as int,
        ),
        key == SortKey::Modified ==> g[sorted[j] as int].modified >= g[sorted[k] as int].modified,
        key == SortKey::Name ==> !text_before(
            lower_all(g[sorted[j] as int].name),
            lower_all(g[sorted[k] as int].name),
        ),
{
    let a = sorted[j];
    let b = sorted[k];
    assert(stands_before(g, order_for(key, true), a, b));
    lemma_marks(g[a as int].flags);
    lemma_marks(g[b as int].flags);
    text_order_is_total(lower_all(g[a as int].name), lower_all(g[b as int].name));
}

/// In a list that was sorted upwards, no entry has less of what the list goes by than one before it.
pub proof fn a_list_sorted_up_never_shrinks(
    g: Seq<EntryView>,
    key: SortKey,
    ids: Seq<u32>,
    sorted: Seq<u32>,
    j: int,
    k: int,
)
    requires
        is_sorted(g, order_for(key, false), ids, sorted),
        0 <= j < k < sorted.len(),
        sorted[j] < g.len(),
        sorted[k] < g.len(),
    ensures
        key == SortKey::Size ==> size_in_list(g, sorted[j] as int) <= size_in_list(g, sorted[k] as int),
        key == SortKey::Allocated ==> allocated_in_list(g, sorted[j] as int) <= allocated_in_list(
            g,
            sorted[k] as int,
        ),
        key == SortKey::Modified ==> g[sorted[j] as int].modified <= g[sorted[k] as int].modified,
        key == SortKey::Name ==> !text_before(
            lower_all(g[sorted[k] as int].name),
            lower_all(g[sorted[j] as int].name),
        ),
{
    let a = sorted[j];
    let b = sorted[k];
    assert(stands_before(g, order_for(key, false), a, b));
    lemma_marks(g[a as int].flags);
    lemma_marks(g[b as int].flags);
    text_order_is_total(lower_all(g[a as int].name), lower_all(g[b as int].name));
}

/// Whichever way a list is sorted, entries that agree in what it goes by stand in the order of their
/// names, and of their numbers where those agree too.
pub proof fn equal_entries_stand_by_name(
    g: Seq<EntryView>,
    key: SortKey,
    descending: bool,
    ids: Seq<u32>,
    sorted: Seq<u32>,
    j: int,
    k: int,
)
    requires
        is_sorted(g, order_for(key, descending), ids, sorted),
        0 <= j < k < sorted.len(),
        sorted[j] < g.len(),
        sorted[k] < g.len(),
        match key {
            SortKey::Size => size_in_list(g, sorted[j] as int) == size_in_list(g, sorted[k] as int),
            SortKey::Allocated => allocated_in_list(g, sorted[j] as int) == allocated_in_list(
                g,
                sorted[k] as int,
            ),
            SortKey::Modified => g[sorted[j] as int].modified == g[sorted[k] as int].modified,
            SortKey::Name => lower_all(g[sorted[j] as int].name) == lower_all(
                g[sorted[k] as int].name,
            ),
        },
    ensures
        g[sorted[j] as int].name == g[sorted[k] as int].name || text_before(
            g[sorted[j] as int].name,
            g[sorted[k] as int].name,
        ),
        g[sorted[j] as int].name == g[sorted[k] as int].name ==> sorted[j] <= sorted[k],
{
    let a = sorted[j];
    let b = sorted[k];
    assert(stands_before(g, order_for(key, descending), a, b));
    lemma_marks(g[a as int].flags);
    lemma_marks(g[b as int].flags);
    text_order_is_total(g[a as int].name, g[b as int].name);
    text_order_is_total(lower_all(g[a as int].name), lower_all(g[b as int].name));
}

/// Sorting keeps every entry that was there, each as often, and adds none.
pub proof fn sorting_keeps_every_entry(
    g: Seq<EntryView>,
    order: EntryOrder,
    ids: Seq<u32>,
    sorted: Seq<u32>,
    i: u32,
)
    requires
        is_sorted(g, order, ids, sorted),
    ensures
        sorted.len() == ids.len(),
        sorted.contains(i) == ids.contains(i),
        sorted.to_multiset().count(i) == ids.to_multiset().count(i),
{
    lemma_same_members(sorted, ids);
}

proof fn lemma_marks(flags: u16)
    ensures
        is_directory(flags) == (flags % 2 == 1),
{
    assert((flags & 1 == 1) == (flags % 2 == 1)) by (bit_vector);
}

/// Among the largest entries sizes never grow down the list, and none that was left out is larger than
/// one that stands in it. What counts is the sum over all that lies below, or the own size alone.
pub proof fn nothing_larger_is_left_out(
    g: Seq<EntryView>,
    ids: Seq<u32>,
    limit: int,
    top: Seq<u32>,
    own: bool,
)
    requires
        limit >= 0,
        all_in(g, ids),
        is_top(
            g,
            if own {
                OrderKey::OwnSize
            } else {
                OrderKey::TotalSize
            },
            ids,
            limit,
            top,
        ),
    ensures
        forall|j: int, k: int| #![trigger top[j], top[k]]
            0 <= j < k < top.len() ==> size_that_counts(g, top[j] as int, own) >= size_that_counts(
                g,
                top[k] as int,
                own,
            ),
        forall|j: int, i: u32| #![trigger top[j], ids.contains(i)]
            0 <= j < top.len() && ids.contains(i) && !top.contains(i) ==> size_that_counts(
                g,
                top[j] as int,
                own,
            ) >= size_that_counts(g, i as int, own),
{
    let key = if own {
        OrderKey::OwnSize
    } else {
        OrderKey::TotalSize
    };
    let sorted = choose|sorted: Seq<u32>| #[trigger]
        is_sorted(g, largest_first(key), ids, sorted) && top == sorted.take(
            if limit < sorted.len() {
                limit
            } else {
                sorted.len() as int
            },
        );
    lemma_same_members(sorted, ids);
    assert forall|j: int, k: int| 0 <= j < k < sorted.len() implies size_that_counts(
        g,
        #[trigger] sorted[j] as int,
        own,
    ) >= size_that_counts(g, #[trigger] sorted[k] as int, own) by {
        assert(sorted.contains(sorted[j]) && sorted.contains(sorted[k]));
        assert(ids.contains(sorted[j]) && ids.contains(sorted[k]));
        lemma_listed(g, ids, sorted[j]);
        lemma_listed(g, ids, sorted[k]);
        assert(stands_before(g, largest_first(key), sorted[j], sorted[k]));
    }
    assert forall|j: int, k: int| #![trigger top[j], top[k]] 0 <= j < k < top.len() implies
        size_that_counts(g, top[j] as int, own) >= size_that_counts(g, top[k] as int, own) by {
        assert(top[j] == sorted[j] && top[k] == sorted[k]);
    }
    assert forall|j: int, i: u32| #![trigger top[j], ids.contains(i)]
        0 <= j < top.len() && ids.contains(i) && !top.contains(i) implies size_that_counts(
        g,
        top[j] as int,
        own,
    ) >= size_that_counts(g, i as int, own) by {
        assert(sorted.contains(i));
        let k = choose|k: int| 0 <= k < sorted.len() && sorted[k] == i;
        if k < top.len() {
            assert(top[k] == i);
        }
        assert(top[j] == sorted[j]);
    }
}

/// Whether every one of the numbers is that of an entry.
pub open spec fn all_in(g: Seq<EntryView>, ids: Seq<u32>) -> bool {
    forall|i: u32| #[trigger] ids.contains(i) ==> i < g.len()
}

proof fn lemma_listed(g: Seq<EntryView>, ids: Seq<u32>, i: u32)
    requires
        all_in(g, ids),
        ids.contains(i),
    ensures
        i < g.len(),
{
}

/// The own size of an entry, or the sum over all that lies below it as far as it can be counted.
pub open spec fn size_that_counts(g: Seq<EntryView>, i: int, own: bool) -> nat {
    if own {
        g[i].size as nat
    } else {
        capped(subtree_sum(g, i, |j: int| g[j].size as nat, g.len() as int), u64::MAX as nat)
    }
}

/// A list of the largest that is shorter than was asked for holds all that there are.
pub proof fn the_whole_is_its_own_top(
    g: Seq<EntryView>,
    key: OrderKey,
    ids: Seq<u32>,
    limit: int,
    top: Seq<u32>,
    i: u32,
)
    requires
        is_top(g, key, ids, limit, top),
        top.len() < limit,
    ensures
        top.contains(i) <==> ids.contains(i),
{
    let sorted = choose|sorted: Seq<u32>| #[trigger]
        is_sorted(g, largest_first(key), ids, sorted) && top == sorted.take(
            if limit < sorted.len() {
                limit
            } else {
                sorted.len() as int
            },
        );
    lemma_same_members(sorted, ids);
    assert(top =~= sorted);
}

} // verus!
