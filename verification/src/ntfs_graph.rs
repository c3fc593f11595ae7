//! From the entries of a volume, found by record number, to the graph of its files.

use vstd::prelude::*;

use crate::graph::{is_forest, kind_bits, parent_view, EntryFlags, EntryId, EntryMetadata, EntryView,
    FileGraph, FileGraphBuilder, FileKind};
use crate::scanner::{is_reserved, is_reserved_metadata_record, NtfsRawEntries, NtfsScanError,
    RawEntryView, ROOT_RECORD_NUMBER};

verus! {

// ---------------------------------------------------------------------------------------------
// The model
// ---------------------------------------------------------------------------------------------

/// The entries of a volume by record number.
pub type Table = Seq<Option<RawEntryView>>;

/// The graph so far, and which of its entries each record became.
pub struct Placed {
    pub ids: Seq<Option<u32>>,
    pub graph: Seq<EntryView>,
}

/// The record that a record's entry hangs on, where there is an entry in it.
pub open spec fn above(table: Table, r: int) -> Option<int> {
    match table[r] {
        Some(e) => match e.parent_record_number {
            Some(q) => if q != r && q < table.len() && table[q as int] is Some {
                Some(q as int)
            } else {
                None
            },
            None => None,
        },
        None => None,
    }
}

/// Where `n` steps up from record `r` lead.
pub open spec fn steps_up(table: Table, r: int, n: nat) -> Option<int>
    decreases n,
{
    if n == 0 {
        Some(r)
    } else {
        match steps_up(table, r, (n - 1) as nat) {
            Some(q) => if 0 <= q < table.len() {
                above(table, q)
            } else {
                None
            },
            None => None,
        }
    }
}

/// Whether a record's entry names a record of metadata as its parent.
pub open spec fn hangs_on_metadata(table: Table, r: int) -> bool {
    &&& 0 <= r < table.len()
    &&& table[r] matches Some(e) && e.parent_record_number matches Some(p) && is_reserved(p)
}

/// Whether `n` steps up from record `r` lead to one that hangs on metadata.
pub open spec fn meets_metadata(table: Table, r: int, n: nat) -> bool {
    steps_up(table, r, n) matches Some(q) && hangs_on_metadata(table, q)
}

/// Whether a record, or any record on its way up, hangs on metadata.
pub open spec fn lies_under_metadata(table: Table, r: int) -> bool {
    exists|n: nat| #[trigger] meets_metadata(table, r, n)
}

/// Whether a record's entry belongs in the graph: it is there, and does not lie under metadata, however
/// far above.
pub open spec fn placeable(table: Table, r: int) -> bool {
    &&& 0 <= r < table.len()
    &&& table[r] is Some
    &&& !lies_under_metadata(table, r)
}

/// The graph's entry for the root directory, for entries that hang nowhere else.
pub open spec fn root_id(r: int, ids: Seq<Option<u32>>) -> Option<u32> {
    if r == ROOT_RECORD_NUMBER || ids.len() <= ROOT_RECORD_NUMBER {
        None
    } else {
        ids[ROOT_RECORD_NUMBER as int]
    }
}

/// The graph's entry for a record: the root goes by the name of the volume.
pub open spec fn placed_entry(
    table: Table,
    root_name: Seq<char>,
    r: int,
    parent: Option<u32>,
) -> EntryView {
    let e = table[r]->0;
    EntryView {
        parent,
        name: if r == ROOT_RECORD_NUMBER {
            root_name
        } else {
            e.name
        },
        flags: kind_bits(e.kind) | if e.hard_links > 1 {
            EntryFlags::HARD_LINK
        } else {
            0
        },
        modified: e.modified_unix,
        size: e.size,
        allocated: e.allocated,
    }
}

/// How many records are not being visited.
pub open spec fn unvisited(visiting: Seq<bool>) -> nat
    decreases visiting.len(),
{
    if visiting.len() == 0 {
        0
    } else {
        unvisited(visiting.drop_last()) + if visiting.last() {
            0nat
        } else {
            1
        }
    }
}

/// How many records have no entry in the graph.
pub open spec fn unplaced(ids: Seq<Option<u32>>) -> nat
    decreases ids.len(),
{
    if ids.len() == 0 {
        0
    } else {
        unplaced(ids.drop_last()) + if ids.last() is Some {
            0nat
        } else {
            1
        }
    }
}

/// Places a record's entry behind everything that it hangs on: the graph afterwards, and the
/// record's entry in it. A record that is met again on the way up gets no entry there.
pub open spec fn place(
    table: Table,
    root_name: Seq<char>,
    r: int,
    visiting: Seq<bool>,
    st: Placed,
) -> (Placed, Option<u32>)
    decreases unvisited(visiting),
{
    if r < 0 || r >= visiting.len() {
        (st, None)
    } else if st.ids[r] is Some {
        (st, st.ids[r])
    } else if !placeable(table, r) || visiting[r] {
        (st, None)
    } else {
        proof {
            lemma_unvisited(visiting, r);
        }
        let (before, parent) = match above(table, r) {
            Some(q) => place(table, root_name, q, visiting.update(r, true), st),
            None => (st, root_id(r, st.ids)),
        };
        let id = before.graph.len() as u32;
        (
            Placed {
                ids: before.ids.update(r, Some(id)),
                graph: before.graph.push(placed_entry(table, root_name, r, parent)),
            },
            Some(id),
        )
    }
}

/// No record is being visited.
pub open spec fn nothing_visited(n: nat) -> Seq<bool> {
    Seq::new(n, |i: int| false)
}

/// Places the entries of the records below `n` one after the other.
pub open spec fn place_all(table: Table, root_name: Seq<char>, n: int, st: Placed) -> Placed
    decreases n,
{
    if n <= 0 {
        st
    } else {
        place(
            table,
            root_name,
            n - 1,
            nothing_visited(table.len()),
            place_all(table, root_name, n - 1, st),
        ).0
    }
}

/// The graph of a volume: the root first, then every record in turn.
pub open spec fn built(table: Table, root_name: Seq<char>) -> Placed {
    let empty = Placed {
        ids: Seq::new(table.len(), |i: int| None::<u32>),
        graph: Seq::empty(),
    };
    place_all(
        table,
        root_name,
        table.len() as int,
        place(
            table,
            root_name,
            ROOT_RECORD_NUMBER as int,
            nothing_visited(table.len()),
            empty,
        ).0,
    )
}

/// Visiting one more record leaves one fewer.
pub proof fn lemma_unvisited(visiting: Seq<bool>, r: int)
    requires
        0 <= r < visiting.len(),
        !visiting[r],
    ensures
        unvisited(visiting) == unvisited(visiting.update(r, true)) + 1,
    decreases visiting.len(),
{
    let changed = visiting.update(r, true);
    if r == visiting.len() - 1 {
        assert(changed.drop_last() =~= visiting.drop_last());
    } else {
        assert(changed.drop_last() =~= visiting.drop_last().update(r, true));
        lemma_unvisited(visiting.drop_last(), r);
    }
}

proof fn lemma_unplaced(ids: Seq<Option<u32>>, r: int, id: u32)
    requires
        0 <= r < ids.len(),
        ids[r] is None,
    ensures
        unplaced(ids) == unplaced(ids.update(r, Some(id))) + 1,
    decreases ids.len(),
{
    let changed = ids.update(r, Some(id));
    if r == ids.len() - 1 {
        assert(changed.drop_last() =~= ids.drop_last());
    } else {
        assert(changed.drop_last() =~= ids.drop_last().update(r, Some(id)));
        lemma_unplaced(ids.drop_last(), r, id);
    }
}

// ---------------------------------------------------------------------------------------------
// What stays true
// ---------------------------------------------------------------------------------------------

/// Whether the way up from record `a` leads to record `b`.
pub open spec fn leads_to(table: Table, a: int, b: int) -> bool {
    exists|n: nat| #[trigger] steps_up(table, a, n) == Some(b)
}

/// Whether the graph's entry of record `r` hangs where it should: on the entry of the record above
/// it, or on nothing where that record itself lies below `r`.
pub open spec fn hangs_right(table: Table, st: Placed, r: int) -> bool {
    let parent = st.graph[st.ids[r]->0 as int].parent;
    above(table, r) matches Some(q) ==> {
        ||| parent is Some && parent == st.ids[q]
        ||| parent is None && leads_to(table, q, r)
    }
}

/// What is true of the graph while it grows.
pub open spec fn sound(table: Table, root_name: Seq<char>, st: Placed) -> bool {
    &&& st.ids.len() == table.len()
    &&& st.graph.len() + unplaced(st.ids) == table.len()
    &&& is_forest(st.graph)
    &&& forall|r: int| #![trigger st.ids[r]]
        0 <= r < table.len() && st.ids[r] is Some ==> {
            &&& st.ids[r]->0 < st.graph.len()
            &&& placeable(table, r)
            &&& st.graph[st.ids[r]->0 as int] == placed_entry(
                table,
                root_name,
                r,
                st.graph[st.ids[r]->0 as int].parent,
            )
            &&& hangs_right(table, st, r)
        }
    &&& forall|r: int, s: int|
        0 <= r < table.len() && 0 <= s < table.len() && (#[trigger] st.ids[r]) is Some && (
        #[trigger] st.ids[s]) == st.ids[r] ==> r == s
}

/// Whether `after` continues `before`: nothing that is in the graph changes.
pub open spec fn continues(before: Placed, after: Placed) -> bool {
    &&& after.ids.len() == before.ids.len()
    &&& before.graph.len() <= after.graph.len()
    &&& before.graph == after.graph.take(before.graph.len() as int)
    &&& forall|r: int| #![trigger after.ids[r]]
        0 <= r < before.ids.len() && before.ids[r] is Some ==> after.ids[r] == before.ids[r]
}

/// The steps up from a record are one and those from the record above it.
proof fn lemma_steps_from_above(table: Table, r: int, q: int, n: nat)
    requires
        0 <= r < table.len(),
        above(table, r) == Some(q),
    ensures
        steps_up(table, r, n + 1) == steps_up(table, q, n),
    decreases n,
{
    if n > 0 {
        lemma_steps_from_above(table, r, q, (n - 1) as nat);
    } else {
        assert(steps_up(table, r, 0) == Some(r));
    }
}

/// There are no steps up from a record with none above it.
proof fn lemma_no_steps(table: Table, r: int, n: nat)
    requires
        0 <= r < table.len(),
        above(table, r) is None,
        n > 0,
    ensures
        steps_up(table, r, n) is None,
    decreases n,
{
    if n > 1 {
        lemma_no_steps(table, r, (n - 1) as nat);
    } else {
        assert(steps_up(table, r, 0) == Some(r));
    }
}

/// A record lies under metadata where it hangs on it, or where the record above it lies under it.
proof fn lemma_under_metadata(table: Table, r: int)
    requires
        0 <= r < table.len(),
    ensures
        lies_under_metadata(table, r) == (hangs_on_metadata(table, r) || (above(table, r) matches Some(
            q,
        ) && lies_under_metadata(table, q))),
{
    assert(steps_up(table, r, 0) == Some(r));
    if hangs_on_metadata(table, r) {
        assert(meets_metadata(table, r, 0));
    }
    if let Some(q) = above(table, r) {
        if lies_under_metadata(table, q) {
            let n = choose|n: nat| #[trigger] meets_metadata(table, q, n);
            lemma_steps_from_above(table, r, q, n);
            assert(meets_metadata(table, r, n + 1));
        }
    }
    if lies_under_metadata(table, r) && !hangs_on_metadata(table, r) {
        let n = choose|n: nat| #[trigger] meets_metadata(table, r, n);
        assert(n > 0);
        match above(table, r) {
            Some(q) => {
                lemma_steps_from_above(table, r, q, (n - 1) as nat);
                assert(meets_metadata(table, q, (n - 1) as nat));
            },
            None => {
                lemma_no_steps(table, r, n);
            },
        }
    }
}

/// Where the way up never leaves records that do not hang on metadata, none of them lies under it.
proof fn lemma_circle_is_free(table: Table, circle: Seq<bool>, r: int, n: nat)
    requires
        circle.len() == table.len(),
        0 <= r < table.len(),
        circle[r],
        forall|x: int|
            0 <= x < table.len() && #[trigger] circle[x] ==> !hangs_on_metadata(table, x) && (above(
                table,
                x,
            ) matches Some(y) && 0 <= y < table.len() && circle[y]),
    ensures
        steps_up(table, r, n) matches Some(q) && 0 <= q < table.len() && circle[q],
        !meets_metadata(table, r, n),
    decreases n,
{
    if n > 0 {
        lemma_circle_is_free(table, circle, r, (n - 1) as nat);
    }
}

proof fn lemma_one_step_further(table: Table, a: int, r: int, q: int)
    requires
        leads_to(table, a, r),
        0 <= r < table.len(),
        above(table, r) == Some(q),
    ensures
        leads_to(table, a, q),
{
    let n = choose|n: nat| #[trigger] steps_up(table, a, n) == Some(r);
    assert(steps_up(table, a, n + 1) == Some(q));
}

/// Placing a record keeps the graph sound, continues it, and gives the record its entry unless the
/// record has none or is being visited.
proof fn lemma_place(
    table: Table,
    root_name: Seq<char>,
    r: int,
    visiting: Seq<bool>,
    st: Placed,
)
    requires
        table.len() <= u32::MAX,
        visiting.len() == table.len(),
        0 <= r < table.len(),
        sound(table, root_name, st),
        forall|x: int| 0 <= x < table.len() && #[trigger] visiting[x] ==> leads_to(table, x, r),
    ensures
        ({
            let (after, id) = place(table, root_name, r, visiting, st);
            &&& sound(table, root_name, after)
            &&& continues(st, after)
            &&& id == after.ids[r]
            &&& id is None ==> !placeable(table, r) || visiting[r]
            &&& forall|x: int|
                0 <= x < table.len() && #[trigger] visiting[x] && st.ids[x] is None ==> after.ids[x]
                    is None
        }),
    decreases unvisited(visiting),
{
    if st.ids[r] is Some || !placeable(table, r) || visiting[r] {
        assert(st.graph.take(st.graph.len() as int) =~= st.graph);
        if st.ids[r] is None {
            assert(st.ids[r] == None::<u32>);
        }
    } else {
        lemma_unvisited(visiting, r);
        let inner = visiting.update(r, true);
        let (before, parent) = match above(table, r) {
            Some(q) => place(table, root_name, q, inner, st),
            None => (st, root_id(r, st.ids)),
        };
        if let Some(q) = above(table, r) {
            assert forall|x: int| 0 <= x < table.len() && #[trigger] inner[x] implies leads_to(
                table,
                x,
                q,
            ) by {
                if x == r {
                    assert(steps_up(table, r, 0) == Some(r));
                    assert(steps_up(table, r, 1) == Some(q));
                } else {
                    lemma_one_step_further(table, x, r, q);
                }
            }
            lemma_place(table, root_name, q, inner, st);
            assert(inner[r]);
            assert(before.ids[r] is None);
            lemma_under_metadata(table, r);
            if parent is None {
                assert(inner[q]);
                assert(leads_to(table, q, r)) by {
                    assert(q != r);
                    assert(visiting[q]);
                }
            }
        } else {
            assert(st.graph.take(st.graph.len() as int) =~= st.graph);
        }
        lemma_add(table, root_name, r, before, parent);
        let after = place(table, root_name, r, visiting, st).0;
        assert(after.graph.take(st.graph.len() as int) =~= before.graph.take(
            st.graph.len() as int,
        ));
        assert forall|x: int|
            0 <= x < table.len() && #[trigger] visiting[x] && st.ids[x] is None implies after.ids[x]
            is None by {
            assert(inner[x]);
        }
    }
}

/// Adding the entry of a record that has none keeps the graph sound.
proof fn lemma_add(
    table: Table,
    root_name: Seq<char>,
    r: int,
    before: Placed,
    parent: Option<u32>,
)
    requires
        table.len() <= u32::MAX,
        sound(table, root_name, before),
        placeable(table, r),
        before.ids[r] is None,
        match above(table, r) {
            Some(q) => {
                ||| parent is Some && 0 <= q < table.len() && parent == before.ids[q]
                ||| parent is None && leads_to(table, q, r)
            },
            None => parent == root_id(r, before.ids),
        },
    ensures
        ({
            let after = Placed {
                ids: before.ids.update(r, Some(before.graph.len() as u32)),
                graph: before.graph.push(placed_entry(table, root_name, r, parent)),
            };
            &&& sound(table, root_name, after)
            &&& continues(before, after)
        }),
{
    let id = before.graph.len() as u32;
    let entry = placed_entry(table, root_name, r, parent);
    let after = Placed { ids: before.ids.update(r, Some(id)), graph: before.graph.push(entry) };
    lemma_unplaced(before.ids, r, id);
    if let Some(p) = parent {
        assert(p < before.graph.len()) by {
            match above(table, r) {
                Some(q) => {
                    assert(before.ids[q] == Some(p));
                },
                None => {
                    assert(before.ids[ROOT_RECORD_NUMBER as int] == Some(p));
                },
            }
        }
    }
    assert(is_forest(after.graph)) by {
        assert forall|i: int| #![trigger after.graph[i]] 0 <= i < after.graph.len() implies (
        after.graph[i].parent matches Some(p) ==> p < i) by {
            if i < before.graph.len() {
                assert(after.graph[i] == before.graph[i]);
            }
        }
    }
    assert forall|s: int| #![trigger after.ids[s]] 0 <= s < table.len() && after.ids[s] is Some implies {
        &&& after.ids[s]->0 < after.graph.len()
        &&& placeable(table, s)
        &&& after.graph[after.ids[s]->0 as int] == placed_entry(
            table,
            root_name,
            s,
            after.graph[after.ids[s]->0 as int].parent,
        )
        &&& hangs_right(table, after, s)
    } by {
        if s == r {
            if let Some(q) = above(table, r) {
                assert(q != r);
                assert(after.ids[q] == before.ids[q]);
            }
        } else {
            assert(after.ids[s] == before.ids[s]);
            let i = before.ids[s]->0 as int;
            assert(after.graph[i] == before.graph[i]);
            assert(hangs_right(table, before, s));
            if let Some(q) = above(table, s) {
                let p = before.graph[i].parent;
                if p is Some {
                    assert(before.ids[q] is Some);
                    assert(q != r);
                    assert(after.ids[q] == before.ids[q]);
                }
            }
        }
    }
    assert forall|x: int, s: int|
        0 <= x < table.len() && 0 <= s < table.len() && (#[trigger] after.ids[x]) is Some && (
        #[trigger] after.ids[s]) == after.ids[x] implies x == s by {
        if x != r {
            assert(after.ids[x] == before.ids[x]);
        }
        if s != r {
            assert(after.ids[s] == before.ids[s]);
        }
    }
    assert(after.graph.take(before.graph.len() as int) =~= before.graph);
}

// ---------------------------------------------------------------------------------------------
// Building
// ---------------------------------------------------------------------------------------------

/// The numbers of the records' entries, as the contracts speak of them.
pub open spec fn id_models(ids: Seq<Option<EntryId>>) -> Seq<Option<u32>> {
    ids.map_values(|id: Option<EntryId>| parent_view(id))
}

/// The graph and the numbers so far.
spec fn state(ids: Seq<Option<EntryId>>, builder: FileGraphBuilder) -> Placed {
    Placed { ids: id_models(ids), graph: builder@ }
}

/// What came of placing a record's entry.
enum Placement {
    /// It is this entry of the graph.
    Entry(EntryId),
    /// It is being placed already: the record lies below itself.
    Circle,
    /// It does not belong in the graph.
    Skipped,
}

impl Placement {
    spec fn id(&self) -> Option<u32> {
        match self {
            Placement::Entry(id) => Some(id.0),
            _ => None,
        }
    }
}

/// Whether the records that are being visited do not hang on metadata, and lead to each other and at
/// last to `r`.
spec fn on_the_way(table: Table, visiting: Seq<bool>, r: int) -> bool {
    forall|x: int|
        0 <= x < table.len() && #[trigger] visiting[x] ==> !hangs_on_metadata(table, x) && (above(
            table,
            x,
        ) matches Some(y) && 0 <= y < table.len() && (y == r || visiting[y]))
}

/// Places a record's entry behind everything that it hangs on.
fn add_entry_recursive(
    record_number: usize,
    entries: &NtfsRawEntries,
    builder: &mut FileGraphBuilder,
    ids: &mut Vec<Option<EntryId>>,
    visiting: &mut Vec<bool>,
    root_name: &str,
) -> (r: Result<Placement, NtfsScanError>)
    requires
        entries@.len() <= u32::MAX,
        record_number < entries@.len(),
        on_the_way(entries@, old(visiting)@, record_number as int),
        old(builder).wf(),
        old(visiting)@.len() == entries@.len(),
        old(ids)@.len() == entries@.len(),
        sound(entries@, root_name@, state(old(ids)@, *old(builder))),
        forall|x: int|
            0 <= x < entries@.len() && #[trigger] old(visiting)@[x] ==> leads_to(
                entries@,
                x,
                record_number as int,
            ),
    ensures
        final(builder).wf(),
        final(visiting)@ == old(visiting)@,
        ({
            let (after, id) = place(
                entries@,
                root_name@,
                record_number as int,
                old(visiting)@,
                state(old(ids)@, *old(builder)),
            );
            &&& state(final(ids)@, *final(builder)) == after
            &&& r matches Ok(found) && found.id() == id && (found is Skipped == !placeable(
                entries@,
                record_number as int,
            ))
        }),
        sound(entries@, root_name@, state(final(ids)@, *final(builder))),
        final(ids)@.len() == entries@.len(),
    decreases unvisited(old(visiting)@),
{
    let ghost table = entries@;
    let ghost st = state(ids@, *builder);
    let ghost seen = visiting@;
    let ghost rn = record_number as int;
    proof {
        lemma_place(table, root_name@, rn, seen, st);
        assert(st.ids[rn] == parent_view(ids@[rn]));
        lemma_under_metadata(table, rn);
    }
    if let Some(id) = ids[record_number] {
        return Ok(Placement::Entry(id));
    }
    let entry = match entries.get(record_number) {
        Some(entry) => entry,
        None => {
            return Ok(Placement::Skipped);
        },
    };
    if visiting[record_number] {
        assert forall|n: nat| !(#[trigger] meets_metadata(table, rn, n)) by {
            lemma_circle_is_free(table, seen, rn, n);
        }
        return Ok(Placement::Circle);
    }
    let parent_record_number = entry.parent_record_number;
    if let Some(parent) = parent_record_number {
        if is_reserved_metadata_record(parent) {
            return Ok(Placement::Skipped);
        }
    }
    assert(!hangs_on_metadata(table, rn));
    let next: Option<usize> = match parent_record_number {
        Some(parent) => if parent != record_number as u64 && parent < entries.len() as u64
            && entries.is_present(parent as usize) {
            Some(parent as usize)
        } else {
            None
        },
        None => None,
    };
    let ghost inner = seen.update(rn, true);
    let parent: Option<EntryId> = match next {
        Some(q) => {
            visiting.set(record_number, true);
            proof {
                lemma_unvisited(seen, rn);
                assert forall|x: int| 0 <= x < table.len() && #[trigger] inner[x] implies leads_to(
                    table,
                    x,
                    q as int,
                ) by {
                    if x == rn {
                        assert(steps_up(table, rn, 0) == Some(rn));
                        assert(steps_up(table, rn, 1) == Some(q as int));
                    } else {
                        lemma_one_step_further(table, x, rn, q as int);
                    }
                }
                lemma_place(table, root_name@, q as int, inner, st);
                assert(inner[rn]);
            }
            let found = add_entry_recursive(q, entries, builder, ids, visiting, root_name);
            visiting.set(record_number, false);
            assert(visiting@ =~= seen);
            match found {
                Ok(Placement::Entry(id)) => Some(id),
                Ok(Placement::Circle) => None,
                Ok(Placement::Skipped) => {
                    assert(st.ids[q as int] is None);
                    return Ok(Placement::Skipped);
                },
                Err(e) => {
                    return Err(e);
                },
            }
        },
        None => fallback_root_parent(record_number, ids),
    };
    let ghost before = state(ids@, *builder);
    assert(before.ids[rn] == parent_view(ids@[rn]));
    let mut flags = EntryFlags::empty();
    if entry.hard_links > 1 {
        flags.insert(EntryFlags::HARD_LINK);
        proof {
            assert(0u16 | 4u16 == 4u16) by (bit_vector);
        }
    }
    let name = if record_number as u64 == ROOT_RECORD_NUMBER {
        root_name.to_owned()
    } else {
        entry.name.clone()
    };
    let metadata = EntryMetadata {
        kind: entry.kind,
        size: entry.size,
        allocated: entry.allocated,
        modified_unix: entry.modified_unix,
        extra_flags: flags,
    };
    proof {
        lemma_unplaced(before.ids, rn, 0);
        assert(place(table, root_name@, rn, seen, st).0.graph.last().parent == parent_view(parent));
        if let Some(p) = parent {
            let graph = place(table, root_name@, rn, seen, st).0.graph;
            assert(graph[graph.len() - 1].parent == Some(p.0));
        }
    }
    match builder.add_entry_with_flags_owned_name(parent, name, metadata) {
        Ok(id) => {
            ids.set(record_number, Some(id));
            proof {
                let after = state(ids@, *builder);
                assert(after.ids =~= before.ids.update(rn, Some(id.0)));
                assert(after == place(table, root_name@, rn, seen, st).0);
            }
            Ok(Placement::Entry(id))
        },
        Err(e) => {
            assert(false);
            Err(NtfsScanError::Graph(e))
        },
    }
}

/// The entry of the root directory, for records that hang nowhere else.
fn fallback_root_parent(record_number: usize, ids: &Vec<Option<EntryId>>) -> (r: Option<EntryId>)
    ensures
        parent_view(r) == root_id(record_number as int, id_models(ids@)),
{
    if record_number as u64 == ROOT_RECORD_NUMBER || ids.len() <= ROOT_RECORD_NUMBER as usize {
        return None;
    }
    ids[ROOT_RECORD_NUMBER as usize]
}

/// The graph of a volume, from the entries of its records.
pub fn build_graph_from_entries(entries: NtfsRawEntries, root_name: String) -> (r: Result<
    FileGraph,
    NtfsScanError,
>)
    requires
        entries@.len() <= u32::MAX,
    ensures
        r matches Ok(graph) && graph.wf() && graph@ == built(entries@, root_name@).graph,
{
    let ghost table = entries@;
    let count: usize = entries.len();
    let mut builder = FileGraphBuilder::without_name_dedup();
    let mut ids: Vec<Option<EntryId>> = Vec::new();
    let mut visiting: Vec<bool> = Vec::new();
    let mut i: usize = 0;
    while i < count
        invariant
            i <= count,
            ids@.len() == i,
            visiting@.len() == i,
            forall|k: int| 0 <= k < i ==> ids@[k] is None,
            forall|k: int| 0 <= k < i ==> !visiting@[k],
        decreases count - i,
    {
        ids.push(None);
        visiting.push(false);
        i += 1;
    }
    let ghost empty = Placed {
        ids: Seq::new(table.len(), |i: int| None::<u32>),
        graph: Seq::empty(),
    };
    proof {
        assert(state(ids@, builder).ids =~= empty.ids);
        lemma_empty_is_sound(table, root_name@);
        assert(visiting@ =~= nothing_visited(table.len()));
    }
    if count > ROOT_RECORD_NUMBER as usize {
        match add_entry_recursive(
            ROOT_RECORD_NUMBER as usize,
            &entries,
            &mut builder,
            &mut ids,
            &mut visiting,
            &root_name,
        ) {
            Ok(_) => {},
            Err(e) => {
                return Err(e);
            },
        }
    }
    let ghost first = place(
        table,
        root_name@,
        ROOT_RECORD_NUMBER as int,
        nothing_visited(table.len()),
        empty,
    ).0;
    let mut record_number: usize = 0;
    while record_number < count
        invariant
            table == entries@,
            count == table.len(),
            count <= u32::MAX,
            record_number <= count,
            builder.wf(),
            ids@.len() == count,
            visiting@ == nothing_visited(table.len()),
            sound(table, root_name@, state(ids@, builder)),
            state(ids@, builder) == place_all(table, root_name@, record_number as int, first),
        decreases count - record_number,
    {
        match add_entry_recursive(
            record_number,
            &entries,
            &mut builder,
            &mut ids,
            &mut visiting,
            &root_name,
        ) {
            Ok(_) => {},
            Err(e) => {
                return Err(e);
            },
        }
        record_number += 1;
    }
    Ok(builder.finish())
}

proof fn lemma_empty_is_sound(table: Table, root_name: Seq<char>)
    requires
        table.len() <= u32::MAX,
    ensures
        sound(
            table,
            root_name,
            Placed { ids: Seq::new(table.len(), |i: int| None::<u32>), graph: Seq::empty() },
        ),
{
    lemma_all_unplaced(table.len());
}

proof fn lemma_all_unplaced(n: nat)
    ensures
        unplaced(Seq::new(n, |i: int| None::<u32>)) == n,
    decreases n,
{
    if n > 0 {
        lemma_all_unplaced((n - 1) as nat);
        assert(Seq::new(n, |i: int| None::<u32>).drop_last() =~= Seq::new(
            (n - 1) as nat,
            |i: int| None::<u32>,
        ));
    }
}

// ---------------------------------------------------------------------------------------------
// Laws
// ---------------------------------------------------------------------------------------------

/// How many of the first `n` records have entries that belong in the graph.
pub open spec fn count_placeable(table: Table, n: int) -> nat
    decreases n,
{
    if n <= 0 {
        0
    } else {
        count_placeable(table, n - 1) + if placeable(table, n - 1) {
            1nat
        } else {
            0
        }
    }
}

proof fn lemma_placed_count(table: Table, ids: Seq<Option<u32>>)
    requires
        ids.len() <= table.len(),
        forall|r: int| 0 <= r < ids.len() ==> (#[trigger] ids[r] is Some) == placeable(table, r),
    ensures
        unplaced(ids) + count_placeable(table, ids.len() as int) == ids.len(),
    decreases ids.len(),
{
    if ids.len() > 0 {
        let shorter = ids.drop_last();
        assert forall|r: int| 0 <= r < shorter.len() implies (#[trigger] shorter[r] is Some)
            == placeable(table, r) by {
            assert(ids[r] == shorter[r]);
        }
        lemma_placed_count(table, shorter);
        assert(ids[ids.len() - 1] is Some == placeable(table, ids.len() - 1));
    }
}

proof fn lemma_place_all(table: Table, root_name: Seq<char>, n: int, st: Placed)
    requires
        table.len() <= u32::MAX,
        sound(table, root_name, st),
        0 <= n <= table.len(),
    ensures
        ({
            let after = place_all(table, root_name, n, st);
            &&& sound(table, root_name, after)
            &&& continues(st, after)
            &&& forall|r: int| 0 <= r < n && placeable(table, r) ==> #[trigger] after.ids[r] is Some
        }),
    decreases n,
{
    if n > 0 {
        lemma_place_all(table, root_name, n - 1, st);
        let before = place_all(table, root_name, n - 1, st);
        lemma_place(table, root_name, n - 1, nothing_visited(table.len()), before);
        let after = place_all(table, root_name, n, st);
        assert(after.graph.take(st.graph.len() as int) =~= before.graph.take(
            st.graph.len() as int,
        ));
        assert forall|r: int| 0 <= r < n && placeable(table, r) implies #[trigger] after.ids[r]
            is Some by {
            if r < n - 1 {
                assert(before.ids[r] is Some);
            }
        }
    } else {
        assert(st.graph.take(st.graph.len() as int) =~= st.graph);
    }
}

proof fn lemma_first_placement(table: Table, root_name: Seq<char>)
    requires
        table.len() <= u32::MAX,
    ensures
        ({
            let empty = Placed {
                ids: Seq::new(table.len(), |i: int| None::<u32>),
                graph: Seq::empty(),
            };
            let first = place(
                table,
                root_name,
                ROOT_RECORD_NUMBER as int,
                nothing_visited(table.len()),
                empty,
            ).0;
            sound(table, root_name, first)
        }),
{
    lemma_empty_is_sound(table, root_name);
    if table.len() > ROOT_RECORD_NUMBER {
        let empty = Placed {
            ids: Seq::new(table.len(), |i: int| None::<u32>),
            graph: Seq::empty(),
        };
        lemma_place(
            table,
            root_name,
            ROOT_RECORD_NUMBER as int,
            nothing_visited(table.len()),
            empty,
        );
    }
}

/// The graph of a volume holds every file and directory of the table once, each under its own name
/// and with its own sizes, and nothing else: neither what lies under metadata, nor anything twice.
pub proof fn graph_holds_every_entry_once(table: Table, root_name: Seq<char>)
    requires
        table.len() <= u32::MAX,
    ensures
        ({
            let st = built(table, root_name);
            &&& is_forest(st.graph)
            &&& st.ids.len() == table.len()
            &&& st.graph.len() == count_placeable(table, table.len() as int)
            &&& forall|r: int|
                0 <= r < table.len() ==> (#[trigger] st.ids[r] is Some) == placeable(table, r)
            &&& forall|r: int|
                0 <= r < table.len() && (#[trigger] st.ids[r]) is Some ==> {
                    &&& st.ids[r]->0 < st.graph.len()
                    &&& st.graph[st.ids[r]->0 as int] == placed_entry(
                        table,
                        root_name,
                        r,
                        st.graph[st.ids[r]->0 as int].parent,
                    )
                }
            &&& forall|r: int, s: int|
                0 <= r < table.len() && 0 <= s < table.len() && (#[trigger] st.ids[r]) is Some && (
                #[trigger] st.ids[s]) == st.ids[r] ==> r == s
        }),
{
    let empty = Placed {
        ids: Seq::new(table.len(), |i: int| None::<u32>),
        graph: Seq::empty(),
    };
    let first = place(
        table,
        root_name,
        ROOT_RECORD_NUMBER as int,
        nothing_visited(table.len()),
        empty,
    ).0;
    lemma_first_placement(table, root_name);
    lemma_place_all(table, root_name, table.len() as int, first);
    let st = built(table, root_name);
    assert forall|r: int| 0 <= r < table.len() implies (#[trigger] st.ids[r] is Some) == placeable(
        table,
        r,
    ) by {
        if placeable(table, r) {
            assert(st.ids[r] is Some);
        }
    }
    lemma_placed_count(table, st.ids);
}

/// In the graph of a volume an entry hangs on the entry of the record that it names as its parent,
/// unless that record itself lies below the first.
pub proof fn entries_hang_on_their_parents(table: Table, root_name: Seq<char>, r: int)
    requires
        table.len() <= u32::MAX,
        placeable(table, r),
    ensures
        hangs_right(table, built(table, root_name), r),
{
    let empty = Placed {
        ids: Seq::new(table.len(), |i: int| None::<u32>),
        graph: Seq::empty(),
    };
    let first = place(
        table,
        root_name,
        ROOT_RECORD_NUMBER as int,
        nothing_visited(table.len()),
        empty,
    ).0;
    lemma_first_placement(table, root_name);
    lemma_place_all(table, root_name, table.len() as int, first);
    assert(built(table, root_name).ids[r] is Some);
}

/// Whether the root is the first entry and every entry without a record above it hangs on it.
pub open spec fn rooted(table: Table, st: Placed) -> bool {
    &&& table.len() > ROOT_RECORD_NUMBER
    &&& st.ids.len() == table.len()
    &&& st.ids[ROOT_RECORD_NUMBER as int] == Some(0u32)
    &&& st.graph.len() > 0
    &&& st.graph[0].parent is None
    &&& forall|r: int| #![trigger st.ids[r]]
        0 <= r < table.len() && r != ROOT_RECORD_NUMBER && st.ids[r] is Some && above(table, r)
            is None ==> st.ids[r]->0 < st.graph.len() && st.graph[st.ids[r]->0 as int].parent == Some(
            0u32,
        )
}

proof fn lemma_place_rooted(
    table: Table,
    root_name: Seq<char>,
    r: int,
    visiting: Seq<bool>,
    st: Placed,
)
    requires
        table.len() <= u32::MAX,
        visiting.len() == table.len(),
        0 <= r < table.len(),
        sound(table, root_name, st),
        forall|x: int| 0 <= x < table.len() && #[trigger] visiting[x] ==> leads_to(table, x, r),
        rooted(table, st),
    ensures
        rooted(table, place(table, root_name, r, visiting, st).0),
    decreases unvisited(visiting),
{
    lemma_place(table, root_name, r, visiting, st);
    if !(st.ids[r] is Some || !placeable(table, r) || visiting[r]) {
        lemma_unvisited(visiting, r);
        let inner = visiting.update(r, true);
        let (before, parent) = match above(table, r) {
            Some(q) => place(table, root_name, q, inner, st),
            None => (st, root_id(r, st.ids)),
        };
        if let Some(q) = above(table, r) {
            assert forall|x: int| 0 <= x < table.len() && #[trigger] inner[x] implies leads_to(
                table,
                x,
                q,
            ) by {
                if x == r {
                    assert(steps_up(table, r, 0) == Some(r));
                    assert(steps_up(table, r, 1) == Some(q));
                } else {
                    lemma_one_step_further(table, x, r, q);
                }
            }
            lemma_place_rooted(table, root_name, q, inner, st);
            lemma_place(table, root_name, q, inner, st);
            assert(inner[r]);
        }
        assert(before.ids[r] is None);
        let after = place(table, root_name, r, visiting, st).0;
        assert(r != ROOT_RECORD_NUMBER);
        assert(unplaced(before.ids) > 0) by {
            lemma_unplaced(before.ids, r, 0);
        }
        assert forall|s: int| #![trigger after.ids[s]]
            0 <= s < table.len() && s != ROOT_RECORD_NUMBER && after.ids[s] is Some && above(table, s)
                is None implies after.ids[s]->0 < after.graph.len() && after.graph[after.ids[s]->0 as int].parent
            == Some(0u32) by {
            if s != r {
                assert(after.ids[s] == before.ids[s]);
                assert(after.graph[before.ids[s]->0 as int] == before.graph[before.ids[s]->0 as int]);
            }
        }
        assert(after.graph[0] == before.graph[0]);
    }
}

proof fn lemma_place_all_rooted(table: Table, root_name: Seq<char>, n: int, st: Placed)
    requires
        table.len() <= u32::MAX,
        sound(table, root_name, st),
        rooted(table, st),
        0 <= n <= table.len(),
    ensures
        rooted(table, place_all(table, root_name, n, st)),
    decreases n,
{
    if n > 0 {
        lemma_place_all_rooted(table, root_name, n - 1, st);
        lemma_place_all(table, root_name, n - 1, st);
        lemma_place_rooted(
            table,
            root_name,
            n - 1,
            nothing_visited(table.len()),
            place_all(table, root_name, n - 1, st),
        );
    }
}

/// Where the table has a root directory that hangs on nothing, the root is the first entry of the
/// graph, and every entry whose parent is not in the table hangs on the root.
pub proof fn orphans_hang_on_the_root(table: Table, root_name: Seq<char>)
    requires
        table.len() <= u32::MAX,
        placeable(table, ROOT_RECORD_NUMBER as int),
        above(table, ROOT_RECORD_NUMBER as int) is None,
    ensures
        rooted(table, built(table, root_name)),
{
    let root = ROOT_RECORD_NUMBER as int;
    let empty = Placed {
        ids: Seq::new(table.len(), |i: int| None::<u32>),
        graph: Seq::empty(),
    };
    let visiting = nothing_visited(table.len());
    let first = place(table, root_name, root, visiting, empty).0;
    lemma_first_placement(table, root_name);
    assert(first.ids == empty.ids.update(root, Some(0u32)));
    assert(first.graph == Seq::empty().push(placed_entry(table, root_name, root, None)));
    assert forall|r: int| #![trigger first.ids[r]]
        0 <= r < table.len() && r != ROOT_RECORD_NUMBER implies first.ids[r] is None by {
        assert(empty.ids[r] is None);
    }
    assert(rooted(table, first));
    lemma_place_all_rooted(table, root_name, table.len() as int, first);
}

proof fn lemma_entry_marks(bits: u16)
    requires
        bits <= 2,
    ensures
        (bits | 4) % 2 == bits % 2,
        ((bits | 4) / 2) % 2 == (bits / 2) % 2,
        (bits | 4) / 4 == 1,
        (bits | 0) == bits,
        bits / 4 == 0,
{
    assert((bits | 4) % 2 == bits % 2 && ((bits | 4) / 2) % 2 == (bits / 2) % 2 && (bits | 4) / 4
        == 1 && (bits | 0) == bits && bits / 4 == 0) by (bit_vector)
        requires
            bits <= 2,
    ;
}

/// The entry of a record keeps the record's sizes and its time of change, and its name unless it is
/// the root, which goes by the name of the volume. It has the first mark where the record is a
/// directory, the second where it is a link, and the third where there are more names for it than one.
pub proof fn an_entry_keeps_what_its_record_says(table: Table, root_name: Seq<char>, r: int)
    requires
        table.len() <= u32::MAX,
        0 <= r < table.len(),
        built(table, root_name).ids[r] is Some,
    ensures
        ({
            let st = built(table, root_name);
            let entry = st.graph[st.ids[r]->0 as int];
            &&& st.ids[r]->0 < st.graph.len()
            &&& table[r] matches Some(e) && {
                &&& entry.size == e.size
                &&& entry.allocated == e.allocated
                &&& entry.modified == e.modified_unix
                &&& r != 5 ==> entry.name == e.name
                &&& r == 5 ==> entry.name == root_name
                &&& entry.flags % 2 == 1 <==> e.kind == FileKind::Directory
                &&& (entry.flags / 2) % 2 == 1 <==> e.kind == FileKind::Symlink
                &&& entry.flags / 4 == 1 <==> e.hard_links > 1
            }
        }),
{
    graph_holds_every_entry_once(table, root_name);
    let st = built(table, root_name);
    assert(st.ids[r] is Some);
    let e = table[r]->0;
    lemma_entry_marks(kind_bits(e.kind));
}

/// Entries of records that name metadata of the file system as their parent are left out, and so is
/// whatever hangs on a record that was left out. Everything else that the table holds is kept.
pub proof fn only_metadata_is_left_out(table: Table, root_name: Seq<char>, r: int)
    requires
        table.len() <= u32::MAX,
        0 <= r < table.len(),
    ensures
        ({
            let ids = built(table, root_name).ids;
            &&& ids.len() == table.len()
            &&& table[r] is None ==> ids[r] is None
            &&& table[r] matches Some(e) ==> match e.parent_record_number {
                None => ids[r] is Some,
                Some(p) => if p < 16 && p != 5 && p != 11 {
                    ids[r] is None
                } else if p == r || p >= table.len() || table[p as int] is None {
                    ids[r] is Some
                } else {
                    ids[r] is Some == ids[p as int] is Some
                },
            }
        }),
{
    graph_holds_every_entry_once(table, root_name);
    lemma_under_metadata(table, r);
    let ids = built(table, root_name).ids;
    assert(ids[r] is Some == placeable(table, r));
    if let Some(q) = above(table, r) {
        assert(ids[q] is Some == placeable(table, q));
    }
}

/// The entry of a record hangs on the entry of the record that it names as its parent, unless the way
/// up from that one leads back to it.
pub proof fn an_entry_lies_in_its_directory(table: Table, root_name: Seq<char>, r: int, p: u64)
    requires
        table.len() <= u32::MAX,
        0 <= r < table.len(),
        built(table, root_name).ids[r] is Some,
        table[r] matches Some(e) && e.parent_record_number == Some(p),
        p < table.len(),
        p != r,
        table[p as int] is Some,
    ensures
        ({
            let st = built(table, root_name);
            let parent = st.graph[st.ids[r]->0 as int].parent;
            &&& st.ids[p as int] is Some
            &&& parent == st.ids[p as int] || (parent is None && leads_to(table, p as int, r))
        }),
{
    graph_holds_every_entry_once(table, root_name);
    only_metadata_is_left_out(table, root_name, r);
    let st = built(table, root_name);
    assert(st.ids[r] is Some == placeable(table, r));
    assert(st.ids[p as int] is Some == placeable(table, p as int));
    entries_hang_on_their_parents(table, root_name, r);
    assert(above(table, r) == Some(p as int));
}

/// Where record 5 holds a root that hangs on nothing but itself, it is the first entry, and an entry
/// whose record names no parent, itself, or one that the table does not hold, hangs on it.
pub proof fn an_entry_without_directory_lies_in_the_root(table: Table, root_name: Seq<char>, r: int)
    requires
        5 < table.len() <= u32::MAX,
        table[5] matches Some(e) && (e.parent_record_number is None || e.parent_record_number == Some(
            5u64,
        )),
        0 <= r < table.len(),
        r != 5,
        built(table, root_name).ids[r] is Some,
        table[r] matches Some(e) && (e.parent_record_number matches Some(p) ==> p == r || p
            >= table.len() || table[p as int] is None),
    ensures
        ({
            let st = built(table, root_name);
            &&& st.ids[5] == Some(0u32)
            &&& st.graph[0].parent is None
            &&& st.graph[st.ids[r]->0 as int].parent == Some(0u32)
        }),
{
    only_metadata_is_left_out(table, root_name, 5);
    graph_holds_every_entry_once(table, root_name);
    let st = built(table, root_name);
    assert(st.ids[5] is Some == placeable(table, 5));
    orphans_hang_on_the_root(table, root_name);
    assert(above(table, r) is None);
    assert(st.ids[r] is Some);
}

} // verus!
