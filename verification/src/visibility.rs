//! Which entries the lines of a tree show.

use vstd::prelude::*;

use crate::command::visible_roots;
use crate::graph::{children, is_forest, within, EntryView};
use crate::order::lemma_same_members;
use crate::ranking::EntryOrder;
use crate::select::select_picks;
use crate::tree::{indexes, lists_children, root_ids, TreeView};
use crate::viewport::{all_lines, counted, in_view, is_found, lemma_lines_of_all_lie_deep, lines_from,
    lines_of_all, Line};

verus! {

/// Whether one of the lines is that of entry `i`.
pub open spec fn has_line(lines: Seq<Line>, i: u32) -> bool {
    exists|k: int| 0 <= k < lines.len() && (#[trigger] lines[k]).id == i
}

/// Whether what lies below entry `p` is looked at: always in a search, and else where it is expanded.
pub open spec fn is_open(expanded: Set<u32>, query: Option<Seq<char>>, p: u32) -> bool {
    query is Some || expanded.contains(p)
}

/// Whether `i` is `top`, or lies below it and every entry on the way from `top` down to it is open.
pub open spec fn leads_to(
    g: Seq<EntryView>,
    expanded: Set<u32>,
    query: Option<Seq<char>>,
    i: u32,
    top: u32,
) -> bool
    decreases i,
{
    i == top || (i < g.len() && match g[i as int].parent {
        Some(p) => p < i && is_open(expanded, query, p) && leads_to(g, expanded, query, p, top),
        None => false,
    })
}

/// Whether entry `i` has a line of its own: always without a query, and else where it is found.
pub open spec fn is_wanted(g: Seq<EntryView>, query: Option<Seq<char>>, i: u32) -> bool {
    query is None || is_found(g, i as int, query->0)
}

/// Whether the lists name the entries right below every entry.
spec fn names_children(g: Seq<EntryView>, below: Seq<Seq<u32>>) -> bool {
    &&& below.len() == g.len()
    &&& forall|p: u32, c: u32|
        #![trigger below[p as int].contains(c)]
        p < g.len() ==> (below[p as int].contains(c) <==> c < g.len() && g[c as int].parent == Some(
            p,
        ))
}

proof fn lemma_names_children(g: Seq<EntryView>, order: EntryOrder, below: Seq<Seq<u32>>)
    requires
        is_forest(g),
        lists_children(g, order, below),
    ensures
        names_children(g, below),
{
    assert forall|p: u32, c: u32| #![trigger below[p as int].contains(c)] p < g.len() implies (
    below[p as int].contains(c) <==> c < g.len() && g[c as int].parent == Some(p)) by {
        let hangs = |i: int| g[i].parent == Some(p);
        let ids = children(g, p);
        select_picks(g.len(), hangs);
        lemma_same_members(below[p as int], ids);
        if ids.contains(c) {
            let m = choose|m: int| 0 <= m < ids.len() && ids[m] == c;
            assert(hangs(ids[m] as int));
        }
        if c < g.len() && g[c as int].parent == Some(p) {
            assert(hangs(c as int));
            assert(ids.contains(c));
        }
    }
}

proof fn lemma_lines_joined(a: Seq<Line>, b: Seq<Line>)
    ensures
        forall|i: u32| #[trigger] has_line(a + b, i) <==> has_line(a, i) || has_line(b, i),
{
    let whole = a + b;
    assert forall|i: u32| #[trigger] has_line(whole, i) <==> has_line(a, i) || has_line(b, i) by {
        if has_line(whole, i) {
            let k = choose|k: int| 0 <= k < whole.len() && (#[trigger] whole[k]).id == i;
            if k < a.len() {
                assert(a[k].id == i);
            } else {
                assert(b[k - a.len()].id == i);
            }
        }
        if has_line(a, i) {
            let k = choose|k: int| 0 <= k < a.len() && (#[trigger] a[k]).id == i;
            assert(whole[k].id == i);
        }
        if has_line(b, i) {
            let k = choose|k: int| 0 <= k < b.len() && (#[trigger] b[k]).id == i;
            assert(whole[a.len() + k].id == i);
        }
    }
}

/// What an open entry's child leads to, the entry leads to.
proof fn lemma_one_up(
    g: Seq<EntryView>,
    expanded: Set<u32>,
    query: Option<Seq<char>>,
    i: u32,
    c: u32,
    top: u32,
)
    requires
        is_forest(g),
        c < g.len(),
        g[c as int].parent == Some(top),
        is_open(expanded, query, top),
        leads_to(g, expanded, query, i, c),
    ensures
        leads_to(g, expanded, query, i, top),
        i != top,
    decreases i,
{
    assert(top < c);
    if i == c {
        assert(leads_to(g, expanded, query, top, top));
    } else {
        let p = g[i as int].parent->0;
        lemma_one_up(g, expanded, query, p, c, top);
        lemma_follows(g, expanded, query, p, top);
    }
}

/// What an entry leads to does not stand before it.
proof fn lemma_follows(
    g: Seq<EntryView>,
    expanded: Set<u32>,
    query: Option<Seq<char>>,
    i: u32,
    top: u32,
)
    requires
        leads_to(g, expanded, query, i, top),
    ensures
        top <= i,
    decreases i,
{
    if i != top {
        lemma_follows(g, expanded, query, g[i as int].parent->0, top);
    }
}

/// What an entry leads to beyond itself, it leads to by one of its children, and it is open.
proof fn lemma_one_down(
    g: Seq<EntryView>,
    expanded: Set<u32>,
    query: Option<Seq<char>>,
    i: u32,
    top: u32,
) -> (c: u32)
    requires
        is_forest(g),
        leads_to(g, expanded, query, i, top),
        i != top,
    ensures
        c < g.len(),
        g[c as int].parent == Some(top),
        is_open(expanded, query, top),
        leads_to(g, expanded, query, i, c),
    decreases i,
{
    let p = g[i as int].parent->0;
    if p == top {
        i
    } else {
        lemma_one_down(g, expanded, query, p, top)
    }
}

proof fn lemma_lines_from(
    g: Seq<EntryView>,
    below: Seq<Seq<u32>>,
    expanded: Set<u32>,
    query: Option<Seq<char>>,
    id: u32,
    depth: nat,
)
    requires
        is_forest(g),
        names_children(g, below),
        id < g.len(),
    ensures
        forall|i: u32| #[trigger]
            has_line(lines_from(g, below, expanded, query, id, depth), i) <==> i < g.len()
                && leads_to(g, expanded, query, i, id) && is_wanted(g, query, i),
    decreases g.len() - id, 0nat,
{
    let lines = lines_from(g, below, expanded, query, id, depth);
    let own = if query is None || is_found(g, id as int, query->0) {
        seq![Line { id, depth }]
    } else {
        Seq::empty()
    };
    let ids = below[id as int];
    assert forall|i: u32| #[trigger] has_line(own, i) <==> i == id && is_wanted(g, query, id) by {
        if is_wanted(g, query, id) {
            assert(own[0].id == id);
        }
    }
    if is_open(expanded, query, id) {
        let rest = lines_of_all(g, below, expanded, query, ids, depth + 1, id as int);
        assert forall|k: int| 0 <= k < ids.len() implies id < #[trigger] ids[k] && ids[k] < g.len() by {
            assert(below[id as int].contains(ids[k]));
        }
        lemma_lines_of_all(g, below, expanded, query, ids, depth + 1, id as int);
        lemma_lines_joined(own, rest);
        assert(lines == own + rest);
        assert forall|i: u32| #[trigger] has_line(lines, i) <==> i < g.len() && leads_to(
            g,
            expanded,
            query,
            i,
            id,
        ) && is_wanted(g, query, i) by {
            if has_line(rest, i) {
                let k = choose|k: int|
                    0 <= k < ids.len() && #[trigger] leads_to(g, expanded, query, i, ids[k]);
                assert(below[id as int].contains(ids[k]));
                lemma_one_up(g, expanded, query, i, ids[k], id);
            }
            if i < g.len() && leads_to(g, expanded, query, i, id) && is_wanted(g, query, i) && i
                != id {
                let c = lemma_one_down(g, expanded, query, i, id);
                assert(below[id as int].contains(c));
                let k = choose|k: int| 0 <= k < ids.len() && ids[k] == c;
                assert(leads_to(g, expanded, query, i, ids[k]));
                assert(has_line(rest, i));
            }
        }
    } else {
        assert(lines == own);
        assert forall|i: u32| #[trigger] has_line(lines, i) <==> i < g.len() && leads_to(
            g,
            expanded,
            query,
            i,
            id,
        ) && is_wanted(g, query, i) by {
            if leads_to(g, expanded, query, i, id) && i != id {
                let c = lemma_one_down(g, expanded, query, i, id);
            }
        }
    }
}

proof fn lemma_lines_of_all(
    g: Seq<EntryView>,
    below: Seq<Seq<u32>>,
    expanded: Set<u32>,
    query: Option<Seq<char>>,
    ids: Seq<u32>,
    depth: nat,
    above: int,
)
    requires
        is_forest(g),
        names_children(g, below),
        forall|k: int| 0 <= k < ids.len() ==> above < #[trigger] ids[k] && ids[k] < g.len(),
    ensures
        forall|i: u32| #[trigger]
            has_line(lines_of_all(g, below, expanded, query, ids, depth, above), i) <==> i < g.len()
                && is_wanted(g, query, i) && exists|k: int|
                0 <= k < ids.len() && #[trigger] leads_to(g, expanded, query, i, ids[k]),
    decreases g.len() - above - 1, ids.len() + 1,
{
    let lines = lines_of_all(g, below, expanded, query, ids, depth, above);
    if ids.len() == 0 {
        assert forall|i: u32| !(#[trigger] has_line(lines, i)) by {}
    } else {
        let shorter = ids.drop_last();
        let last = ids.last();
        assert(last == ids[ids.len() - 1]);
        assert forall|k: int| 0 <= k < shorter.len() implies above < #[trigger] shorter[k] && shorter[k]
            < g.len() by {
            assert(shorter[k] == ids[k]);
        }
        lemma_lines_of_all(g, below, expanded, query, shorter, depth, above);
        lemma_lines_from(g, below, expanded, query, last, depth);
        let front = lines_of_all(g, below, expanded, query, shorter, depth, above);
        let back = lines_from(g, below, expanded, query, last, depth);
        assert(lines == front + back);
        lemma_lines_joined(front, back);
        assert forall|i: u32| #[trigger] has_line(lines, i) <==> i < g.len() && is_wanted(
            g,
            query,
            i,
        ) && exists|k: int| 0 <= k < ids.len() && #[trigger] leads_to(g, expanded, query, i, ids[k]) by {
            if has_line(front, i) {
                let k = choose|k: int|
                    0 <= k < shorter.len() && #[trigger] leads_to(g, expanded, query, i, shorter[k]);
                assert(leads_to(g, expanded, query, i, ids[k]));
            }
            if has_line(back, i) {
                assert(leads_to(g, expanded, query, i, ids[ids.len() - 1]));
            }
            if i < g.len() && is_wanted(g, query, i) && exists|k: int|
                0 <= k < ids.len() && #[trigger] leads_to(g, expanded, query, i, ids[k]) {
                let k = choose|k: int|
                    0 <= k < ids.len() && #[trigger] leads_to(g, expanded, query, i, ids[k]);
                if k < ids.len() - 1 {
                    assert(leads_to(g, expanded, query, i, shorter[k]));
                    assert(has_line(front, i));
                } else {
                    assert(has_line(back, i));
                }
            }
        }
    }
}

proof fn lemma_all_lines(
    g: Seq<EntryView>,
    order: EntryOrder,
    index: TreeView,
    expanded: Set<u32>,
    query: Option<Seq<char>>,
    i: u32,
)
    requires
        is_forest(g),
        indexes(g, order, index),
    ensures
        has_line(all_lines(g, index, expanded, query), i) <==> i < g.len() && is_wanted(g, query, i)
            && exists|k: int|
            0 <= k < index.roots.len() && #[trigger] leads_to(
                g,
                expanded,
                query,
                i,
                index.roots[k],
            ),
{
    lemma_names_children(g, order, index.below);
    lemma_lines_of_all(g, index.below, expanded, query, index.roots, 0, -1);
}

/// Without a search the tree shows an entry where every entry above it is expanded, up to one of the
/// roots, and no other.
pub proof fn a_tree_shows_what_is_expanded(
    g: Seq<EntryView>,
    order: EntryOrder,
    index: TreeView,
    expanded: Set<u32>,
    i: u32,
)
    requires
        is_forest(g),
        indexes(g, order, index),
    ensures
        has_line(all_lines(g, index, expanded, None), i) <==> i < g.len() && exists|k: int|
            0 <= k < index.roots.len() && #[trigger] leads_to(
                g,
                expanded,
                None,
                i,
                index.roots[k],
            ),
{
    lemma_all_lines(g, order, index, expanded, None, i);
}

/// What a search finds does not depend on what is expanded: it shows every entry at or below a root
/// that is found, and no other.
pub proof fn a_search_shows_all_that_is_found(
    g: Seq<EntryView>,
    order: EntryOrder,
    index: TreeView,
    expanded: Set<u32>,
    query: Seq<char>,
    i: u32,
)
    requires
        is_forest(g),
        indexes(g, order, index),
    ensures
        has_line(all_lines(g, index, expanded, Some(query)), i) <==> i < g.len() && is_found(
            g,
            i as int,
            query,
        ) && exists|k: int|
            0 <= k < index.roots.len() && #[trigger] within(
                g,
                i as int,
                index.roots[k] as int,
            ),
{
    lemma_all_lines(g, order, index, expanded, Some(query), i);
    assert forall|k: int| 0 <= k < index.roots.len() implies leads_to(
        g,
        expanded,
        Some(query),
        i,
        #[trigger] index.roots[k],
    ) == (i == index.roots[k] || within(g, i as int, index.roots[k] as int)) by {
        lemma_search_leads_down(g, expanded, query, i, index.roots[k]);
    }
    if exists|k: int|
        0 <= k < index.roots.len() && #[trigger] within(
            g,
            i as int,
            index.roots[k] as int,
        ) {
        let k = choose|k: int|
            0 <= k < index.roots.len() && #[trigger] within(
                g,
                i as int,
                index.roots[k] as int,
            );
        assert(leads_to(g, expanded, Some(query), i, index.roots[k]));
    }
    if exists|k: int|
        0 <= k < index.roots.len() && #[trigger] leads_to(
            g,
            expanded,
            Some(query),
            i,
            index.roots[k],
        ) {
        let k = choose|k: int|
            0 <= k < index.roots.len() && #[trigger] leads_to(
                g,
                expanded,
                Some(query),
                i,
                index.roots[k],
            );
        assert(within(g, i as int, index.roots[k] as int));
    }
}

proof fn lemma_search_leads_down(
    g: Seq<EntryView>,
    expanded: Set<u32>,
    query: Seq<char>,
    i: u32,
    top: u32,
)
    ensures
        leads_to(g, expanded, Some(query), i, top) == within(g, i as int, top as int),
    decreases i,
{
    if i != top && i < g.len() {
        if let Some(p) = g[i as int].parent {
            if p < i {
                lemma_search_leads_down(g, expanded, query, p, top);
            }
        }
    }
}

/// Two pages that follow each other show what one page of their length together shows.
pub proof fn pages_follow_each_other(lines: Seq<Line>, offset: nat, first: nat, second: nat)
    ensures
        in_view(lines, offset, first) + in_view(lines, offset + first, second) == in_view(
            lines,
            offset,
            first + second,
        ),
{
    assert(in_view(lines, offset, first) + in_view(lines, offset + first, second) =~= in_view(
        lines,
        offset,
        first + second,
    ));
}

// ---------------------------------------------------------------------------------------------
// One line for an entry
// ---------------------------------------------------------------------------------------------

/// Whether no two of the lines are those of one entry.
pub open spec fn show_once(lines: Seq<Line>) -> bool {
    forall|a: int, b: int|
        0 <= a < b < lines.len() ==> (#[trigger] lines[a]).id != (#[trigger] lines[b]).id
}

/// Whether none of these entries is another one of them or lies below it.
pub open spec fn are_apart(g: Seq<EntryView>, ids: Seq<u32>) -> bool {
    forall|a: int, b: int|
        0 <= a < ids.len() && 0 <= b < ids.len() && a != b ==> !within(
            g,
            #[trigger] ids[a] as int,
            #[trigger] ids[b] as int,
        )
}

/// Of two entries that an entry lies below, one lies below the other.
proof fn lemma_one_below_the_other(g: Seq<EntryView>, i: int, a: int, b: int)
    requires
        within(g, i, a),
        within(g, i, b),
    ensures
        within(g, a, b) || within(g, b, a),
    decreases i,
{
    if i != a && i != b {
        lemma_one_below_the_other(g, g[i].parent->0 as int, a, b);
    }
}

proof fn lemma_leads_within(
    g: Seq<EntryView>,
    expanded: Set<u32>,
    query: Option<Seq<char>>,
    i: u32,
    top: u32,
)
    requires
        leads_to(g, expanded, query, i, top),
    ensures
        within(g, i as int, top as int),
    decreases i,
{
    if i != top {
        lemma_leads_within(g, expanded, query, g[i as int].parent->0, top);
    }
}

proof fn lemma_within_follows(g: Seq<EntryView>, i: int, top: int)
    requires
        within(g, i, top),
    ensures
        top <= i,
    decreases i,
{
    if i != top {
        lemma_within_follows(g, g[i].parent->0 as int, top);
    }
}

/// A list has no number twice where another one of the same numbers has none twice.
proof fn lemma_still_once(ids: Seq<u32>, sorted: Seq<u32>)
    requires
        sorted.to_multiset() == ids.to_multiset(),
        ids.no_duplicates(),
    ensures
        sorted.no_duplicates(),
{
    ids.lemma_multiset_has_no_duplicates();
    sorted.lemma_multiset_has_no_duplicates_conv();
}

/// Entries that hang on the same entry are apart.
proof fn lemma_siblings_apart(g: Seq<EntryView>, p: u32, ids: Seq<u32>)
    requires
        is_forest(g),
        ids.no_duplicates(),
        forall|k: int| 0 <= k < ids.len() ==> (#[trigger] ids[k]) < g.len() && g[ids[k] as int].parent
            == Some(p),
    ensures
        are_apart(g, ids),
{
    assert forall|a: int, b: int| 0 <= a < ids.len() && 0 <= b < ids.len() && a != b implies !within(
        g,
        #[trigger] ids[a] as int,
        #[trigger] ids[b] as int,
    ) by {
        if within(g, ids[a] as int, ids[b] as int) {
            lemma_within_follows(g, p as int, ids[b] as int);
        }
    }
}

/// Whether the lists name every child once.
spec fn names_once(g: Seq<EntryView>, below: Seq<Seq<u32>>) -> bool {
    &&& names_children(g, below)
    &&& forall|p: int| 0 <= p < g.len() ==> (#[trigger] below[p]).no_duplicates()
}

proof fn lemma_names_once(g: Seq<EntryView>, order: EntryOrder, below: Seq<Seq<u32>>)
    requires
        is_forest(g),
        lists_children(g, order, below),
    ensures
        names_once(g, below),
{
    lemma_names_children(g, order, below);
    assert forall|p: int| 0 <= p < g.len() implies (#[trigger] below[p]).no_duplicates() by {
        select_picks(g.len(), |i: int| g[i].parent == Some(p as u32));
        lemma_still_once(children(g, p as u32), below[p]);
    }
}

proof fn lemma_apart_lines(a: Seq<Line>, b: Seq<Line>)
    requires
        show_once(a),
        show_once(b),
        forall|i: u32| #[trigger] has_line(a, i) ==> !has_line(b, i),
    ensures
        show_once(a + b),
{
    let lines = a + b;
    assert forall|x: int, y: int| 0 <= x < y < lines.len() implies (#[trigger] lines[x]).id != (
    #[trigger] lines[y]).id by {
        if y < a.len() {
            assert(lines[x] == a[x] && lines[y] == a[y]);
        } else if x >= a.len() {
            assert(lines[x] == b[x - a.len()] && lines[y] == b[y - a.len()]);
        } else {
            assert(lines[x] == a[x] && lines[y] == b[y - a.len()]);
            assert(has_line(a, lines[x].id));
            if lines[x].id == lines[y].id {
                assert(has_line(b, lines[x].id));
            }
        }
    }
}

proof fn lemma_once_from(
    g: Seq<EntryView>,
    below: Seq<Seq<u32>>,
    expanded: Set<u32>,
    query: Option<Seq<char>>,
    id: u32,
    depth: nat,
)
    requires
        is_forest(g),
        names_once(g, below),
        id < g.len(),
    ensures
        show_once(lines_from(g, below, expanded, query, id, depth)),
    decreases g.len() - id, 0nat,
{
    let own = if query is None || is_found(g, id as int, query->0) {
        seq![Line { id, depth }]
    } else {
        Seq::empty()
    };
    let ids = below[id as int];
    if is_open(expanded, query, id) {
        let rest = lines_of_all(g, below, expanded, query, ids, depth + 1, id as int);
        assert forall|k: int| 0 <= k < ids.len() implies id < #[trigger] ids[k] && ids[k] < g.len()
            && g[ids[k] as int].parent == Some(id) by {
            assert(below[id as int].contains(ids[k]));
        }
        lemma_siblings_apart(g, id, ids);
        lemma_once_of_all(g, below, expanded, query, ids, depth + 1, id as int);
        lemma_lines_of_all(g, below, expanded, query, ids, depth + 1, id as int);
        assert forall|i: u32| #[trigger] has_line(own, i) implies !has_line(rest, i) by {
            assert(i == id);
            if has_line(rest, i) {
                let k = choose|k: int|
                    0 <= k < ids.len() && #[trigger] leads_to(g, expanded, query, i, ids[k]);
                lemma_follows(g, expanded, query, i, ids[k]);
            }
        }
        lemma_apart_lines(own, rest);
    }
}

proof fn lemma_once_of_all(
    g: Seq<EntryView>,
    below: Seq<Seq<u32>>,
    expanded: Set<u32>,
    query: Option<Seq<char>>,
    ids: Seq<u32>,
    depth: nat,
    above: int,
)
    requires
        is_forest(g),
        names_once(g, below),
        are_apart(g, ids),
        forall|k: int| 0 <= k < ids.len() ==> above < #[trigger] ids[k] && ids[k] < g.len(),
    ensures
        show_once(lines_of_all(g, below, expanded, query, ids, depth, above)),
    decreases g.len() - above - 1, ids.len() + 1,
{
    if ids.len() > 0 {
        let shorter = ids.drop_last();
        let last = ids.last();
        assert(last == ids[ids.len() - 1]);
        assert forall|k: int| 0 <= k < shorter.len() implies above < #[trigger] shorter[k] && shorter[k]
            < g.len() by {
            assert(shorter[k] == ids[k]);
        }
        assert(are_apart(g, shorter)) by {
            assert forall|a: int, b: int|
                0 <= a < shorter.len() && 0 <= b < shorter.len() && a != b implies !within(
                g,
                #[trigger] shorter[a] as int,
                #[trigger] shorter[b] as int,
            ) by {
                assert(shorter[a] == ids[a] && shorter[b] == ids[b]);
            }
        }
        lemma_once_of_all(g, below, expanded, query, shorter, depth, above);
        lemma_once_from(g, below, expanded, query, last, depth);
        lemma_lines_of_all(g, below, expanded, query, shorter, depth, above);
        lemma_lines_from(g, below, expanded, query, last, depth);
        let front = lines_of_all(g, below, expanded, query, shorter, depth, above);
        let back = lines_from(g, below, expanded, query, last, depth);
        assert forall|i: u32| #[trigger] has_line(front, i) implies !has_line(back, i) by {
            if has_line(back, i) {
                let k = choose|k: int|
                    0 <= k < shorter.len() && #[trigger] leads_to(g, expanded, query, i, shorter[k]);
                assert(shorter[k] == ids[k]);
                lemma_leads_within(g, expanded, query, i, shorter[k]);
                lemma_leads_within(g, expanded, query, i, last);
                lemma_one_below_the_other(g, i as int, ids[k] as int, ids[ids.len() - 1] as int);
            }
        }
        lemma_apart_lines(front, back);
    }
}

/// Where the roots are apart, the tree has no more than one line for an entry, whatever is expanded
/// or searched for, and so no more lines than the graph has entries.
pub proof fn an_entry_has_one_line(
    g: Seq<EntryView>,
    order: EntryOrder,
    index: TreeView,
    expanded: Set<u32>,
    query: Option<Seq<char>>,
)
    requires
        is_forest(g),
        indexes(g, order, index),
        are_apart(g, index.roots),
    ensures
        show_once(all_lines(g, index, expanded, query)),
        all_lines(g, index, expanded, query).len() <= g.len(),
{
    let lines = all_lines(g, index, expanded, query);
    lemma_names_once(g, order, index.below);
    lemma_once_of_all(g, index.below, expanded, query, index.roots, 0, -1);
    lemma_lines_of_all_lie_deep(g, index.below, expanded, query, index.roots, 0, -1);
    let ids = lines.map_values(|line: Line| line.id as int);
    assert(ids.no_duplicates()) by {
        assert forall|a: int, b: int| 0 <= a < ids.len() && 0 <= b < ids.len() && a != b implies ids[a]
            != ids[b] by {
            assert(ids[a] == lines[a].id && ids[b] == lines[b].id);
        }
    }
    let numbers = vstd::set_lib::set_int_range(0, g.len() as int);
    vstd::set_lib::lemma_int_range(0, g.len() as int);
    ids.unique_seq_to_set();
    assert(ids.to_set().subset_of(numbers)) by {
        assert forall|x: int| ids.to_set().contains(x) implies numbers.contains(x) by {
            let k = choose|k: int| 0 <= k < ids.len() && ids[k] == x;
            assert(ids[k] == lines[k].id);
        }
    }
    vstd::set_lib::lemma_len_subset(ids.to_set(), numbers);
}

/// The entries without a parent are apart, in whatever order they stand.
pub proof fn all_roots_are_apart(g: Seq<EntryView>, roots: Seq<u32>)
    requires
        is_forest(g),
        roots.to_multiset() == root_ids(g).to_multiset(),
    ensures
        are_apart(g, roots),
{
    let is_root = |i: int| g[i].parent is None;
    select_picks(g.len(), is_root);
    lemma_still_once(root_ids(g), roots);
    lemma_same_members(roots, root_ids(g));
    assert forall|a: int, b: int| 0 <= a < roots.len() && 0 <= b < roots.len() && a != b implies !within(
        g,
        #[trigger] roots[a] as int,
        #[trigger] roots[b] as int,
    ) by {
        assert(roots.contains(roots[a]));
        let k = choose|k: int| 0 <= k < root_ids(g).len() && root_ids(g)[k] == roots[a];
        assert(is_root(root_ids(g)[k] as int));
    }
}

/// The entries at the top of what is shown are apart.
pub proof fn visible_roots_are_apart(g: Seq<EntryView>, display_root: Option<Seq<char>>)
    requires
        is_forest(g),
    ensures
        are_apart(g, visible_roots(g, display_root)),
{
    all_roots_are_apart(g, root_ids(g));
}

/// A page shows a part of what a page without a limit shows, from its offset on, and counts the same
/// lines, which are all that there are.
pub proof fn a_page_is_a_slice(
    g: Seq<EntryView>,
    order: EntryOrder,
    index: TreeView,
    expanded: Set<u32>,
    query: Option<Seq<char>>,
    offset: usize,
    limit: usize,
)
    requires
        is_forest(g),
        g.len() <= usize::MAX,
        indexes(g, order, index),
        are_apart(g, index.roots),
    ensures
        ({
            let lines = all_lines(g, index, expanded, query);
            let total = counted(lines.len());
            &&& in_view(lines, 0, usize::MAX as nat) == lines
            &&& total == lines.len()
            &&& in_view(lines, offset as nat, limit as nat) == lines.subrange(
                if offset < total {
                    offset as int
                } else {
                    total as int
                },
                if offset + limit < total {
                    offset + limit
                } else {
                    total as int
                },
            )
        }),
{
    an_entry_has_one_line(g, order, index, expanded, query);
    let lines = all_lines(g, index, expanded, query);
    assert(in_view(lines, 0, usize::MAX as nat) =~= lines);
}

/// How many steps lead from entry `i` up to `top`, which it lies below.
pub open spec fn steps_up_to(g: Seq<EntryView>, i: int, top: int) -> nat
    decreases i,
{
    if i == top || !(0 <= i < g.len()) {
        0
    } else {
        match g[i].parent {
            Some(p) => if p < i {
                1 + steps_up_to(g, p as int, top)
            } else {
                0
            },
            None => 0,
        }
    }
}

proof fn lemma_one_step_more(g: Seq<EntryView>, j: int, c: int, p: int)
    requires
        is_forest(g),
        0 <= p < c < g.len(),
        g[c].parent == Some(p as u32),
        0 <= j < g.len(),
        within(g, j, c),
    ensures
        within(g, j, p),
        j != p,
        steps_up_to(g, j, p) == steps_up_to(g, j, c) + 1,
    decreases j,
{
    if j == c {
        assert(steps_up_to(g, p, p) == 0);
        assert(within(g, p, p));
    } else {
        let q = g[j].parent->0;
        lemma_one_step_more(g, q as int, c, p);
        lemma_not_above(g, q as int, c);
    }
}

proof fn lemma_not_above(g: Seq<EntryView>, j: int, i: int)
    requires
        is_forest(g),
        0 <= j < g.len(),
        within(g, j, i),
    ensures
        i <= j,
    decreases j,
{
    if j != i {
        let q = g[j].parent->0;
        lemma_not_above(g, q as int, i);
    }
}

/// Whether a line shows an entry at or below `top`, as deep as steps lead up to it from there.
pub open spec fn is_as_deep(g: Seq<EntryView>, line: Line, top: u32, depth: nat) -> bool {
    &&& line.id < g.len()
    &&& within(g, line.id as int, top as int)
    &&& line.depth == depth + steps_up_to(g, line.id as int, top as int)
}

proof fn lemma_depth_from(
    g: Seq<EntryView>,
    below: Seq<Seq<u32>>,
    expanded: Set<u32>,
    query: Option<Seq<char>>,
    id: u32,
    depth: nat,
)
    requires
        is_forest(g),
        names_children(g, below),
        id < g.len(),
    ensures
        forall|k: int|
            0 <= k < lines_from(g, below, expanded, query, id, depth).len() ==> is_as_deep(
                g,
                #[trigger] lines_from(g, below, expanded, query, id, depth)[k],
                id,
                depth,
            ),
    decreases g.len() - id, 0nat,
{
    let ids = below[id as int];
    let all = lines_from(g, below, expanded, query, id, depth);
    let rest = lines_of_all(g, below, expanded, query, ids, depth + 1, id as int);
    assert forall|m: int| 0 <= m < ids.len() implies id < #[trigger] ids[m] && ids[m] < g.len()
        && g[ids[m] as int].parent == Some(id) by {
        assert(ids.contains(ids[m]));
        assert(below[id as int].contains(ids[m]));
    }
    lemma_depth_of_all(g, below, expanded, query, ids, depth + 1, id as int);
    assert forall|k: int| 0 <= k < all.len() implies is_as_deep(g, #[trigger] all[k], id, depth) by {
        let own: int = if query is None || is_found(g, id as int, query->0) {
            1
        } else {
            0
        };
        if k >= own {
            let line = rest[k - own];
            assert(all[k] == line);
            let m = choose|m: int|
                0 <= m < ids.len() && is_as_deep(g, line, #[trigger] ids[m], depth + 1);
            lemma_one_step_more(g, line.id as int, ids[m] as int, id as int);
        } else {
            assert(all[k] == Line { id, depth });
            assert(within(g, id as int, id as int));
        }
    }
}

proof fn lemma_depth_of_all(
    g: Seq<EntryView>,
    below: Seq<Seq<u32>>,
    expanded: Set<u32>,
    query: Option<Seq<char>>,
    ids: Seq<u32>,
    depth: nat,
    above: int,
)
    requires
        is_forest(g),
        names_children(g, below),
        above >= -1,
    ensures
        forall|k: int|
            0 <= k < lines_of_all(g, below, expanded, query, ids, depth, above).len() ==> exists|m: int|
                0 <= m < ids.len() && is_as_deep(
                    g,
                    #[trigger] lines_of_all(g, below, expanded, query, ids, depth, above)[k],
                    #[trigger] ids[m],
                    depth,
                ),
    decreases g.len() - above - 1, ids.len() + 1,
{
    let all = lines_of_all(g, below, expanded, query, ids, depth, above);
    if ids.len() > 0 {
        let shorter = ids.drop_last();
        let last = ids[ids.len() - 1];
        let front = lines_of_all(g, below, expanded, query, shorter, depth, above);
        lemma_depth_of_all(g, below, expanded, query, shorter, depth, above);
        if above < last && last < g.len() {
            lemma_depth_from(g, below, expanded, query, last, depth);
        }
        assert forall|k: int| 0 <= k < all.len() implies exists|m: int|
            0 <= m < ids.len() && is_as_deep(g, #[trigger] all[k], #[trigger] ids[m], depth) by {
            if k < front.len() {
                assert(all[k] == front[k]);
                let m = choose|m: int|
                    0 <= m < shorter.len() && is_as_deep(g, front[k], #[trigger] shorter[m], depth);
                assert(ids[m] == shorter[m]);
            } else {
                let back = lines_from(g, below, expanded, query, last, depth);
                assert(all[k] == back[k - front.len()]);
                assert(is_as_deep(g, back[k - front.len()], last, depth));
                assert(ids[ids.len() - 1] == last);
            }
        }
    }
}

/// A line stands as deep as steps lead from its entry up to the root that it is shown below, whether
/// a search is made or not.
pub proof fn a_line_stands_as_deep_as_its_entry(
    g: Seq<EntryView>,
    order: EntryOrder,
    index: TreeView,
    expanded: Set<u32>,
    query: Option<Seq<char>>,
    k: int,
)
    requires
        is_forest(g),
        indexes(g, order, index),
        0 <= k < all_lines(g, index, expanded, query).len(),
    ensures
        exists|m: int|
            0 <= m < index.roots.len() && is_as_deep(
                g,
                all_lines(g, index, expanded, query)[k],
                #[trigger] index.roots[m],
                0,
            ),
{
    lemma_names_children(g, order, index.below);
    lemma_depth_of_all(g, index.below, expanded, query, index.roots, 0, -1);
    let lines = all_lines(g, index, expanded, query);
    assert(lines[k] == lines_of_all(g, index.below, expanded, query, index.roots, 0, -1)[k]);
}

/// Without a search an entry's line stands right before those of what lies below it, of which there
/// are none where it is closed.
pub proof fn an_entry_stands_before_what_lies_below(
    g: Seq<EntryView>,
    order: EntryOrder,
    index: TreeView,
    expanded: Set<u32>,
    id: u32,
    depth: nat,
    k: int,
)
    requires
        is_forest(g),
        indexes(g, order, index),
        id < g.len(),
        0 < k < lines_from(g, index.below, expanded, None, id, depth).len(),
    ensures
        lines_from(g, index.below, expanded, None, id, depth)[0] == (Line { id, depth }),
        expanded.contains(id),
        ({
            let line = lines_from(g, index.below, expanded, None, id, depth)[k];
            within(g, line.id as int, id as int) && line.id > id && line.depth > depth
        }),
{
    lemma_names_children(g, order, index.below);
    lemma_depth_from(g, index.below, expanded, None, id, depth);
    let all = lines_from(g, index.below, expanded, None, id, depth);
    let ids = index.below[id as int];
    let rest = lines_of_all(g, index.below, expanded, None, ids, depth + 1, id as int);
    lemma_depth_of_all(g, index.below, expanded, None, ids, depth + 1, id as int);
    let line = rest[k - 1];
    assert(all[k] == line);
    let m = choose|m: int| 0 <= m < ids.len() && is_as_deep(g, line, #[trigger] ids[m], depth + 1);
    assert(index.below[id as int].contains(ids[m]));
    assert(g[ids[m] as int].parent == Some(id));
    lemma_not_above(g, line.id as int, ids[m] as int);
}

} // verus!
