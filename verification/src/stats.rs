//! File types: how many files have which extension, and how much room they take.

use vstd::hash_map::StringHashMap;
use vstd::prelude::*;

use crate::graph::{capped, is_directory, the_first_mark_makes_a_directory, EntryFlags, EntryId,
    EntryView, FileGraph};
use crate::order::{is_ranking_of, is_text_before, lemma_one_list, lemma_same_members, sort_ids,
    text_before, text_order_is_total, text_order_is_transitive, Ranking};
use crate::select::sum_where;
use crate::text::{chars_of, lower_all, to_ascii_lowercase};
use crate::winpath::{an_extension_stands_behind_the_last_dot, extension, extension_spec,
    is_plain_name, no_extension_without_a_dot};

verus! {

/// The files with one extension.
#[derive(Debug, Clone, PartialEq, Eq)]
pub struct FileTypeStat {
    pub extension: String,
    pub files: u64,
    pub size: u64,
    pub allocated: u64,
}

/// What is counted of the files with one extension.
pub struct TypeView {
    pub extension: Seq<char>,
    pub files: u64,
    pub size: u64,
    pub allocated: u64,
}

impl View for FileTypeStat {
    type V = TypeView;

    open spec fn view(&self) -> TypeView {
        TypeView {
            extension: self.extension@,
            files: self.files,
            size: self.size,
            allocated: self.allocated,
        }
    }
}

/// The type that a name stands under: its extension in small ASCII letters, `(none)` where it has
/// none.
pub open spec fn type_of(name: Seq<char>) -> Seq<char> {
    match extension_spec(name) {
        Some(e) => if e.len() == 0 {
            "(none)"@
        } else {
            lower_all(e)
        },
        None => "(none)"@,
    }
}

/// The type that a name stands under.
#[must_use]
pub fn extension_label(name: &str) -> (r: String)
    ensures
        r@ == type_of(name@),
{
    match extension(name) {
        Some(e) => if chars_of(&e).len() == 0 {
            "(none)".to_owned()
        } else {
            to_ascii_lowercase(&e)
        },
        None => "(none)".to_owned(),
    }
}

/// Whether entry `i` is a file of this type.
pub open spec fn is_of_type(g: Seq<EntryView>, label: Seq<char>, i: int) -> bool {
    !is_directory(g[i].flags) && type_of(g[i].name) == label
}

/// What is counted of the files of a type among the first `n` entries.
pub open spec fn type_stat(g: Seq<EntryView>, label: Seq<char>, n: nat) -> TypeView {
    let of_type = |i: int| is_of_type(g, label, i);
    TypeView {
        extension: label,
        files: sum_where(n, of_type, |i: int| 1) as u64,
        size: capped(sum_where(n, of_type, |i: int| g[i].size as nat), u64::MAX as nat) as u64,
        allocated: capped(
            sum_where(n, of_type, |i: int| g[i].allocated as nat),
            u64::MAX as nat,
        ) as u64,
    }
}

/// Whether one of the first `n` entries is a file of this type.
pub open spec fn occurs(g: Seq<EntryView>, label: Seq<char>, n: nat) -> bool {
    exists|i: int| 0 <= i < n && #[trigger] is_of_type(g, label, i)
}

/// Whether a type is listed before another: the larger first, then the one with more files, then by
/// extension.
pub open spec fn listed_before(a: TypeView, b: TypeView) -> bool {
    if a.size != b.size {
        a.size > b.size
    } else if a.files != b.files {
        a.files > b.files
    } else {
        text_before(a.extension, b.extension)
    }
}

/// Whether the list holds the types of the files, each once, in order.
pub open spec fn lists_types(g: Seq<EntryView>, types: Seq<TypeView>) -> bool {
    &&& forall|k: int|
        0 <= k < types.len() ==> #[trigger] types[k] == type_stat(g, types[k].extension, g.len())
            && occurs(g, types[k].extension, g.len())
    &&& forall|label: Seq<char>| #[trigger]
        occurs(g, label, g.len()) ==> exists|k: int|
            0 <= k < types.len() && (#[trigger] types[k]).extension == label
    &&& forall|j: int, k: int|
        0 <= j < k < types.len() ==> listed_before(#[trigger] types[j], #[trigger] types[k])
}

/// What the list says.
pub open spec fn types_view(stats: Seq<FileTypeStat>) -> Seq<TypeView> {
    stats.map_values(|stat: FileTypeStat| stat@)
}

struct TypeRanking<'a> {
    stats: &'a Vec<FileTypeStat>,
}

proof fn lemma_listed_before(a: TypeView, b: TypeView, c: TypeView)
    ensures
        !(listed_before(a, b) && listed_before(b, a)),
        listed_before(a, b) && listed_before(b, c) ==> listed_before(a, c),
        !listed_before(b, a) && !listed_before(c, b) ==> !listed_before(c, a),
        a.extension != b.extension ==> listed_before(a, b) || listed_before(b, a),
{
    text_order_is_total(a.extension, b.extension);
    text_order_is_total(b.extension, c.extension);
    text_order_is_total(a.extension, c.extension);
    if text_before(a.extension, b.extension) && text_before(b.extension, c.extension) {
        text_order_is_transitive(a.extension, b.extension, c.extension);
    }
    if text_before(c.extension, a.extension) && text_before(a.extension, b.extension) {
        text_order_is_transitive(c.extension, a.extension, b.extension);
    }
    if text_before(b.extension, c.extension) && text_before(c.extension, a.extension) {
        text_order_is_transitive(b.extension, c.extension, a.extension);
    }
}

impl<'a> Ranking for TypeRanking<'a> {
    closed spec fn knows(&self, a: u32) -> bool {
        a < self.stats@.len()
    }

    closed spec fn at_most(&self, a: u32, b: u32) -> bool {
        !listed_before(self.stats@[b as int]@, self.stats@[a as int]@)
    }

    proof fn total(&self, a: u32, b: u32) {
        let x = self.stats@[a as int]@;
        lemma_listed_before(x, self.stats@[b as int]@, x);
    }

    proof fn transitive(&self, a: u32, b: u32, c: u32) {
        lemma_listed_before(
            self.stats@[a as int]@,
            self.stats@[b as int]@,
            self.stats@[c as int]@,
        );
    }

    fn in_order(&self, a: u32, b: u32) -> (r: bool) {
        let first = &self.stats[a as usize];
        let second = &self.stats[b as usize];
        if first.size != second.size {
            return first.size > second.size;
        }
        if first.files != second.files {
            return first.files > second.files;
        }
        !is_text_before(&second.extension, &first.extension)
    }
}

/// The types counted so far, with the place of each.
struct Tally {
    stats: Vec<FileTypeStat>,
    places: StringHashMap<usize>,
}

impl Tally {
    spec fn holds(&self, g: Seq<EntryView>, n: nat) -> bool {
        &&& self.stats@.len() <= n
        &&& forall|k: int|
            0 <= k < self.stats@.len() ==> (#[trigger] self.stats@[k])@ == type_stat(
                g,
                self.stats@[k].extension@,
                n,
            ) && occurs(g, self.stats@[k].extension@, n) && self.places@.contains_key(
                self.stats@[k].extension@,
            ) && self.places@[self.stats@[k].extension@] == k
        &&& forall|label: Seq<char>| #[trigger]
            self.places@.contains_key(label) ==> self.places@[label] < self.stats@.len()
                && self.stats@[self.places@[label] as int].extension@ == label
        &&& forall|label: Seq<char>| #[trigger]
            occurs(g, label, n) ==> self.places@.contains_key(label)
    }
}

proof fn lemma_files_bounded(g: Seq<EntryView>, label: Seq<char>, n: nat)
    ensures
        sum_where(n, |i: int| is_of_type(g, label, i), |i: int| 1) <= n,
    decreases n,
{
    if n > 0 {
        lemma_files_bounded(g, label, (n - 1) as nat);
    }
}

proof fn lemma_none_counted(g: Seq<EntryView>, label: Seq<char>, n: nat, f: spec_fn(int) -> nat)
    requires
        !occurs(g, label, n),
    ensures
        sum_where(n, |i: int| is_of_type(g, label, i), f) == 0,
    decreases n,
{
    if n > 0 {
        assert(!is_of_type(g, label, n - 1));
        assert forall|i: int| 0 <= i < n - 1 implies !#[trigger] is_of_type(g, label, i) by {}
        lemma_none_counted(g, label, (n - 1) as nat, f);
    }
}

proof fn lemma_type_step(g: Seq<EntryView>, label: Seq<char>, n: nat)
    requires
        0 < n <= g.len(),
        g.len() <= u32::MAX + 1,
    ensures
        ({
            let before = type_stat(g, label, (n - 1) as nat);
            let after = type_stat(g, label, n);
            let entry = g[n - 1];
            if is_of_type(g, label, n - 1) {
                &&& after.files == before.files + 1
                &&& after.size == capped((before.size + entry.size) as nat, u64::MAX as nat)
                &&& after.allocated == capped(
                    (before.allocated + entry.allocated) as nat,
                    u64::MAX as nat,
                )
            } else {
                after == before
            }
        }),
        occurs(g, label, n) == (occurs(g, label, (n - 1) as nat) || is_of_type(g, label, n - 1)),
{
    lemma_files_bounded(g, label, n);
    lemma_files_bounded(g, label, (n - 1) as nat);
    if occurs(g, label, (n - 1) as nat) {
        let i = choose|i: int| 0 <= i < n - 1 && #[trigger] is_of_type(g, label, i);
        assert(0 <= i < n && is_of_type(g, label, i));
    }
    if occurs(g, label, n) {
        let i = choose|i: int| 0 <= i < n && #[trigger] is_of_type(g, label, i);
        if i < n - 1 {
            assert(0 <= i < n - 1 && is_of_type(g, label, i));
        }
    }
}

fn count_types(graph: &FileGraph) -> (r: Vec<FileTypeStat>)
    requires
        graph.wf(),
    ensures
        r@.len() <= graph@.len(),
        forall|k: int|
            0 <= k < r@.len() ==> (#[trigger] r@[k])@ == type_stat(
                graph@,
                r@[k].extension@,
                graph@.len(),
            ) && occurs(graph@, r@[k].extension@, graph@.len()),
        forall|label: Seq<char>| #[trigger]
            occurs(graph@, label, graph@.len()) ==> exists|k: int|
                0 <= k < r@.len() && (#[trigger] r@[k]).extension@ == label,
        forall|j: int, k: int|
            0 <= j < k < r@.len() ==> (#[trigger] r@[j]).extension@ != (#[trigger] r@[k]).extension@,
{
    let ghost g = graph@;
    proof {
        graph.lemma_wf();
    }
    let n = graph.len();
    let mut tally = Tally { stats: Vec::new(), places: StringHashMap::new() };
    let mut i: usize = 0;
    while i < n
        invariant
            graph.wf(),
            g == graph@,
            n == g.len(),
            n <= u32::MAX + 1,
            i <= n,
            tally.holds(g, i as nat),
        decreases n - i,
    {
        let id = EntryId(i as u32);
        match (graph.entry(id), graph.name(id), graph.stats(id)) {
            (Some(entry), Some(name), Some(stats)) => {
                let label = extension_label(name);
                let ghost text = label@;
                let ghost before = tally;
                proof {
                    assert forall|other: Seq<char>| #[trigger]
                        occurs(g, other, (i + 1) as nat) == (occurs(g, other, i as nat)
                            || is_of_type(g, other, i as int)) by {
                        lemma_type_step(g, other, (i + 1) as nat);
                    }
                    assert forall|k: int| 0 <= k < before.stats@.len() && !is_of_type(
                        g,
                        (#[trigger] before.stats@[k]).extension@,
                        i as int,
                    ) implies before.stats@[k]@ == type_stat(
                        g,
                        before.stats@[k].extension@,
                        (i + 1) as nat,
                    ) by {
                        lemma_type_step(g, before.stats@[k].extension@, (i + 1) as nat);
                    }
                    lemma_type_step(g, text, (i + 1) as nat);
                    lemma_files_bounded(g, text, i as nat);
                }
                if !entry.flags.contains(EntryFlags::DIRECTORY) {
                    assert(is_of_type(g, text, i as int));
                    let at = match tally.places.get(&label) {
                        Some(place) => *place,
                        None => {
                            proof {
                                assert(!occurs(g, text, i as nat));
                                lemma_none_counted(g, text, i as nat, |i: int| 1);
                                lemma_none_counted(g, text, i as nat, |i: int| g[i].size as nat);
                                lemma_none_counted(g, text, i as nat, |i: int| g[i].allocated as nat);
                            }
                            let place: usize = tally.stats.len();
                            tally.stats.push(
                                FileTypeStat {
                                    extension: label.clone(),
                                    files: 0,
                                    size: 0,
                                    allocated: 0,
                                },
                            );
                            tally.places.insert(label, place);
                            place
                        },
                    };
                    assert(tally.stats@[at as int]@ == type_stat(g, text, i as nat));
                    let old_stat = &tally.stats[at];
                    let stat = FileTypeStat {
                        extension: old_stat.extension.clone(),
                        files: old_stat.files + 1,
                        size: old_stat.size.saturating_add(stats.own_size.bytes()),
                        allocated: old_stat.allocated.saturating_add(stats.own_allocated.bytes()),
                    };
                    tally.stats.set(at, stat);
                    assert(tally.stats@[at as int]@ == type_stat(g, text, (i + 1) as nat));
                }
                assert(tally.holds(g, (i + 1) as nat));
            },
            _ => {},
        }
        i += 1;
    }
    assert forall|label: Seq<char>| #[trigger] occurs(g, label, g.len()) implies exists|k: int|
        0 <= k < tally.stats@.len() && (#[trigger] tally.stats@[k]).extension@ == label by {
        let k = tally.places@[label] as int;
        assert(tally.stats@[k].extension@ == label);
    }
    tally.stats
}

/// Whether these are the types of the files, the largest first: at most `limit`.
pub open spec fn are_types(g: Seq<EntryView>, limit: nat, shown: Seq<TypeView>) -> bool {
    exists|types: Seq<TypeView>| #[trigger]
        lists_types(g, types) && shown == types.take(
            if limit < types.len() {
                limit as int
            } else {
                types.len() as int
            },
        )
}

/// The types of the files, the largest first, at most `limit` of them.
#[must_use]
pub fn file_type_stats(graph: &FileGraph, limit: usize) -> (r: Vec<FileTypeStat>)
    requires
        graph.wf(),
    ensures
        are_types(graph@, limit as nat, types_view(r@)),
{
    let ghost g = graph@;
    proof {
        graph.lemma_wf();
    }
    let stats = count_types(graph);
    let n = stats.len();
    let mut places: Vec<u32> = Vec::new();
    let mut i: usize = 0;
    while i < n
        invariant
            n == stats@.len(),
            n <= u32::MAX + 1,
            i <= n,
            places@ == Seq::new(i as nat, |k: int| k as u32),
        decreases n - i,
    {
        places.push(i as u32);
        i += 1;
    }
    let ranking = TypeRanking { stats: &stats };
    let sorted = sort_ids(&ranking, &places);
    let ghost all = Seq::new(sorted@.len(), |k: int| stats@[sorted@[k] as int]@);
    proof {
        lemma_ranked_types(g, stats@, places@, sorted@, &ranking);
    }
    let mut r: Vec<FileTypeStat> = Vec::new();
    let mut k: usize = 0;
    assert(types_view(r@) =~= all.take(0));
    while k < sorted.len() && k < limit
        invariant
            k <= sorted@.len(),
            k <= limit,
            all == Seq::new(sorted@.len(), |k: int| stats@[sorted@[k] as int]@),
            forall|m: int| 0 <= m < sorted@.len() ==> (#[trigger] sorted@[m]) < stats@.len(),
            types_view(r@) == all.take(k as int),
        decreases sorted@.len() - k,
    {
        let ghost shown = r@;
        let stat = &stats[sorted[k] as usize];
        let copy = FileTypeStat {
            extension: stat.extension.clone(),
            files: stat.files,
            size: stat.size,
            allocated: stat.allocated,
        };
        r.push(copy);
        k += 1;
        assert(types_view(r@) =~= types_view(shown).push(copy@));
        assert(all.take(k as int) =~= all.take(k - 1).push(all[k - 1]));
    }
    r
}

proof fn lemma_ranked_types(
    g: Seq<EntryView>,
    stats: Seq<FileTypeStat>,
    places: Seq<u32>,
    sorted: Seq<u32>,
    ranking: &TypeRanking,
)
    requires
        ranking.stats@ == stats,
        stats.len() <= u32::MAX + 1,
        places == Seq::new(stats.len(), |k: int| k as u32),
        is_ranking_of(ranking, places, sorted),
        forall|k: int|
            0 <= k < stats.len() ==> (#[trigger] stats[k])@ == type_stat(
                g,
                stats[k].extension@,
                g.len(),
            ) && occurs(g, stats[k].extension@, g.len()),
        forall|label: Seq<char>| #[trigger]
            occurs(g, label, g.len()) ==> exists|k: int|
                0 <= k < stats.len() && (#[trigger] stats[k]).extension@ == label,
        forall|j: int, k: int|
            0 <= j < k < stats.len() ==> (#[trigger] stats[j]).extension@ != (#[trigger] stats[k]).extension@,
    ensures
        forall|m: int| 0 <= m < sorted.len() ==> (#[trigger] sorted[m]) < stats.len(),
        lists_types(g, Seq::new(sorted.len(), |k: int| stats[sorted[k] as int]@)),
{
    lemma_same_members(places, sorted);
    assert forall|m: int| 0 <= m < sorted.len() implies (#[trigger] sorted[m]) < stats.len() by {
        assert(sorted.contains(sorted[m]));
        assert(places.contains(sorted[m]));
    }
    let all = Seq::new(sorted.len(), |k: int| stats[sorted[k] as int]@);
    assert forall|k: int| 0 <= k < all.len() implies #[trigger] all[k] == type_stat(
        g,
        all[k].extension,
        g.len(),
    ) && occurs(g, all[k].extension, g.len()) by {
        let at = sorted[k] as int;
        assert(stats[at]@ == type_stat(g, stats[at].extension@, g.len()));
    }
    assert forall|label: Seq<char>| #[trigger] occurs(g, label, g.len()) implies exists|k: int|
        0 <= k < all.len() && (#[trigger] all[k]).extension == label by {
        let at = choose|at: int| 0 <= at < stats.len() && (#[trigger] stats[at]).extension@ == label;
        assert(places[at] == at as u32);
        assert(places.contains(at as u32));
        assert(sorted.contains(at as u32));
        let k = choose|k: int| 0 <= k < sorted.len() && sorted[k] == at as u32;
        assert(all[k].extension == label);
    }
    assert(sorted.no_duplicates()) by {
        assert(places.no_duplicates());
        places.lemma_multiset_has_no_duplicates();
        sorted.lemma_multiset_has_no_duplicates_conv();
    }
    assert forall|j: int, k: int| 0 <= j < k < all.len() implies listed_before(
        #[trigger] all[j],
        #[trigger] all[k],
    ) by {
        assert(ranking.at_most(sorted[j], sorted[k]));
        assert(sorted[j] != sorted[k]);
        let x = sorted[j] as int;
        let y = sorted[k] as int;
        assert(stats[x].extension@ != stats[y].extension@) by {
            if x < y {
                assert(stats[x].extension@ != stats[y].extension@);
            } else {
                assert(stats[y].extension@ != stats[x].extension@);
            }
        }
        lemma_listed_before(stats[x]@, stats[y]@, stats[x]@);
    }
}

/// There is only one list of the types of the files of a graph.
pub proof fn types_are_listed_one_way(g: Seq<EntryView>, a: Seq<TypeView>, b: Seq<TypeView>)
    requires
        lists_types(g, a),
        lists_types(g, b),
    ensures
        a == b,
{
    let before = |x: TypeView, y: TypeView| listed_before(x, y);
    lemma_listed_in_both(g, a, b);
    lemma_listed_in_both(g, b, a);
    assert forall|x: TypeView, y: TypeView| #[trigger] before(x, y) implies !before(y, x) by {
        text_order_is_total(x.extension, y.extension);
    }
    lemma_one_list(a, b, before);
}

proof fn lemma_listed_in_both(g: Seq<EntryView>, a: Seq<TypeView>, b: Seq<TypeView>)
    requires
        lists_types(g, a),
        lists_types(g, b),
    ensures
        forall|x: TypeView| a.contains(x) ==> b.contains(x),
{
    assert forall|x: TypeView| a.contains(x) implies b.contains(x) by {
        let k = choose|k: int| 0 <= k < a.len() && a[k] == x;
        assert(occurs(g, a[k].extension, g.len()));
        let m = choose|m: int| 0 <= m < b.len() && (#[trigger] b[m]).extension == x.extension;
        assert(b[m] == x);
    }
}

/// The sum, over all types in a list, of what the files of each add up to.
pub open spec fn over_types(
    g: Seq<EntryView>,
    labels: Seq<Seq<char>>,
    n: nat,
    f: spec_fn(int) -> nat,
) -> nat
    decreases labels.len(),
{
    if labels.len() == 0 {
        0
    } else {
        over_types(g, labels.drop_last(), n, f) + sum_where(
            n,
            |i: int| is_of_type(g, labels.last(), i),
            f,
        )
    }
}

/// The sum over the files among the first `n` entries: those without the mark of a directory.
pub open spec fn over_files(g: Seq<EntryView>, n: nat, f: spec_fn(int) -> nat) -> nat
    decreases n,
{
    if n == 0 {
        0
    } else {
        over_files(g, (n - 1) as nat, f) + if g[n - 1].flags % 2 == 0 {
            f(n - 1)
        } else {
            0
        }
    }
}

proof fn lemma_no_types_start(
    g: Seq<EntryView>,
    labels: Seq<Seq<char>>,
    f: spec_fn(int) -> nat,
)
    ensures
        over_types(g, labels, 0, f) == 0,
    decreases labels.len(),
{
    if labels.len() > 0 {
        lemma_no_types_start(g, labels.drop_last(), f);
    }
}

proof fn lemma_types_step(
    g: Seq<EntryView>,
    labels: Seq<Seq<char>>,
    n: nat,
    f: spec_fn(int) -> nat,
)
    requires
        labels.no_duplicates(),
    ensures
        over_types(g, labels, n + 1, f) == over_types(g, labels, n, f) + if !is_directory(
            g[n as int].flags,
        ) && labels.contains(type_of(g[n as int].name)) {
            f(n as int)
        } else {
            0
        },
    decreases labels.len(),
{
    if labels.len() > 0 {
        let shorter = labels.drop_last();
        let label = type_of(g[n as int].name);
        lemma_types_step(g, shorter, n, f);
        if shorter.contains(label) {
            let k = choose|k: int| 0 <= k < shorter.len() && shorter[k] == label;
            assert(labels[k] == label);
            assert(labels.last() != label);
        }
        if labels.contains(label) && labels.last() != label {
            let k = choose|k: int| 0 <= k < labels.len() && labels[k] == label;
            assert(shorter[k] == label);
        }
        if labels.last() == label {
            assert(labels[labels.len() - 1] == label);
        }
    }
}

proof fn lemma_types_hold_files(
    g: Seq<EntryView>,
    labels: Seq<Seq<char>>,
    n: nat,
    f: spec_fn(int) -> nat,
)
    requires
        labels.no_duplicates(),
        n <= g.len(),
        forall|i: int|
            0 <= i < g.len() && !is_directory((#[trigger] g[i]).flags) ==> labels.contains(
                type_of(g[i].name),
            ),
    ensures
        over_types(g, labels, n, f) == over_files(g, n, f),
    decreases n,
{
    if n == 0 {
        lemma_no_types_start(g, labels, f);
    } else {
        let before = (n - 1) as nat;
        lemma_types_hold_files(g, labels, before, f);
        lemma_types_step(g, labels, before, f);
        the_first_mark_makes_a_directory(g[before as int].flags);
    }
}

/// The extensions of the listed types.
pub open spec fn labels_of(types: Seq<TypeView>) -> Seq<Seq<char>> {
    types.map_values(|stat: TypeView| stat.extension)
}

/// The files that the listed types tell of, together.
pub open spec fn files_told(types: Seq<TypeView>) -> nat
    decreases types.len(),
{
    if types.len() == 0 {
        0
    } else {
        files_told(types.drop_last()) + types.last().files as nat
    }
}

/// The sizes that the listed types tell of, together.
pub open spec fn size_told(types: Seq<TypeView>) -> nat
    decreases types.len(),
{
    if types.len() == 0 {
        0
    } else {
        size_told(types.drop_last()) + types.last().size as nat
    }
}

/// The room that the listed types tell of, together.
pub open spec fn allocated_told(types: Seq<TypeView>) -> nat
    decreases types.len(),
{
    if types.len() == 0 {
        0
    } else {
        allocated_told(types.drop_last()) + types.last().allocated as nat
    }
}

proof fn lemma_types_tell_sums(g: Seq<EntryView>, types: Seq<TypeView>)
    requires
        g.len() <= u32::MAX + 1,
        forall|k: int|
            0 <= k < types.len() ==> #[trigger] types[k] == type_stat(
                g,
                types[k].extension,
                g.len(),
            ),
    ensures
        ({
            let labels = labels_of(types);
            let sizes = over_types(g, labels, g.len(), |i: int| g[i].size as nat);
            let rooms = over_types(g, labels, g.len(), |i: int| g[i].allocated as nat);
            &&& files_told(types) == over_types(g, labels, g.len(), |i: int| 1nat)
            &&& sizes <= u64::MAX ==> size_told(types) == sizes
            &&& rooms <= u64::MAX ==> allocated_told(types) == rooms
        }),
    decreases types.len(),
{
    if types.len() > 0 {
        let shorter = types.drop_last();
        assert forall|k: int| 0 <= k < shorter.len() implies #[trigger] shorter[k] == type_stat(
            g,
            shorter[k].extension,
            g.len(),
        ) by {
            assert(types[k] == shorter[k]);
        }
        lemma_types_tell_sums(g, shorter);
        assert(labels_of(types).drop_last() =~= labels_of(shorter));
        let last = types[types.len() - 1];
        assert(labels_of(types).last() == last.extension);
        assert(last == type_stat(g, last.extension, g.len()));
        lemma_files_bounded(g, last.extension, g.len());
    }
}

/// Every file is counted under one type and no more: the listed types together tell of as many files
/// as there are, and of as many bytes as all files have.
pub proof fn every_file_is_counted_once(g: Seq<EntryView>, types: Seq<TypeView>)
    requires
        lists_types(g, types),
        g.len() <= u32::MAX + 1,
    ensures
        ({
            let sizes = over_files(g, g.len(), |i: int| g[i].size as nat);
            let rooms = over_files(g, g.len(), |i: int| g[i].allocated as nat);
            &&& files_told(types) == over_files(g, g.len(), |i: int| 1nat)
            &&& sizes <= u64::MAX ==> size_told(types) == sizes
            &&& rooms <= u64::MAX ==> allocated_told(types) == rooms
        }),
{
    let labels = labels_of(types);
    assert forall|j: int, k: int| 0 <= j < labels.len() && 0 <= k < labels.len() && j != k implies
        labels[j] != labels[k] by {
        if j < k {
            types_never_grow_down_the_list(g, types, j, k);
        } else {
            types_never_grow_down_the_list(g, types, k, j);
        }
    }
    assert forall|i: int| 0 <= i < g.len() && !is_directory((#[trigger] g[i]).flags) implies
        labels.contains(type_of(g[i].name)) by {
        let label = type_of(g[i].name);
        assert(is_of_type(g, label, i));
        assert(occurs(g, label, g.len()));
        let k = choose|k: int| 0 <= k < types.len() && (#[trigger] types[k]).extension == label;
        assert(labels[k] == label);
    }
    lemma_types_hold_files(g, labels, g.len(), |i: int| 1nat);
    lemma_types_hold_files(g, labels, g.len(), |i: int| g[i].size as nat);
    lemma_types_hold_files(g, labels, g.len(), |i: int| g[i].allocated as nat);
    lemma_types_tell_sums(g, types);
}

proof fn lemma_part_of_sum(n: nat, p: spec_fn(int) -> bool, f: spec_fn(int) -> nat, i: int)
    requires
        0 <= i < n,
        p(i),
    ensures
        sum_where(n, p, f) >= f(i),
    decreases n,
{
    if i < n - 1 {
        lemma_part_of_sum((n - 1) as nat, p, f, i);
    }
}

/// A file named with a dot and letters behind it is counted under those letters, in small letters:
/// there is such a type in the list, it has a file or more, and it is no smaller than the file.
pub proof fn a_file_counts_under_its_extension(
    g: Seq<EntryView>,
    types: Seq<TypeView>,
    i: int,
    stem: Seq<char>,
    own: Seq<char>,
)
    requires
        lists_types(g, types),
        g.len() <= u32::MAX + 1,
        0 <= i < g.len(),
        g[i].flags % 2 == 0,
        g[i].name == stem + seq!['.'] + own,
        is_plain_name(g[i].name),
        stem.len() > 0,
        own.len() > 0,
        !own.contains('.'),
    ensures
        exists|k: int|
            0 <= k < types.len() && (#[trigger] types[k]).extension == lower_all(own)
                && types[k].files >= 1 && types[k].size >= g[i].size && types[k].allocated
                >= g[i].allocated,
{
    let label = lower_all(own);
    let n = g.len();
    the_first_mark_makes_a_directory(g[i].flags);
    an_extension_stands_behind_the_last_dot(stem, own);
    assert(is_of_type(g, label, i));
    assert(occurs(g, label, n));
    let k = choose|k: int| 0 <= k < types.len() && (#[trigger] types[k]).extension == label;
    let of_type = |i: int| is_of_type(g, label, i);
    assert(of_type(i));
    lemma_part_of_sum(n, of_type, |i: int| 1nat, i);
    lemma_part_of_sum(n, of_type, |i: int| g[i].size as nat, i);
    lemma_part_of_sum(n, of_type, |i: int| g[i].allocated as nat, i);
    lemma_files_bounded(g, label, n);
    assert(types[k] == type_stat(g, label, n));
}

/// A file whose name has no dot stands under `(none)`.
pub proof fn a_file_without_extension_counts_under_none(
    g: Seq<EntryView>,
    types: Seq<TypeView>,
    i: int,
)
    requires
        lists_types(g, types),
        0 <= i < g.len(),
        g[i].flags % 2 == 0,
        is_plain_name(g[i].name),
        !g[i].name.contains('.'),
    ensures
        exists|k: int|
            0 <= k < types.len() && (#[trigger] types[k]).extension == seq![
                '(',
                'n',
                'o',
                'n',
                'e',
                ')',
            ],
{
    the_first_mark_makes_a_directory(g[i].flags);
    no_extension_without_a_dot(g[i].name);
    reveal_strlit("(none)");
    assert("(none)"@ =~= seq!['(', 'n', 'o', 'n', 'e', ')']);
    assert(is_of_type(g, "(none)"@, i));
    assert(occurs(g, "(none)"@, g.len()));
}

/// Only files are counted, and each by its own numbers: an entry more adds its size to the type of
/// its name, and nothing to any other type; a directory adds nothing.
pub proof fn an_entry_adds_to_its_type_only(g: Seq<EntryView>, label: Seq<char>, n: nat)
    requires
        n < g.len() <= u32::MAX,
    ensures
        ({
            let before = type_stat(g, label, n);
            let after = type_stat(g, label, n + 1);
            let counts = g[n as int].flags % 2 == 0 && type_of(g[n as int].name) == label;
            &&& type_stat(g, label, 0).files == 0
            &&& type_stat(g, label, 0).size == 0
            &&& type_stat(g, label, 0).allocated == 0
            &&& !counts ==> after == before
            &&& counts ==> after.files == before.files + 1
            &&& counts && before.size + g[n as int].size <= u64::MAX ==> after.size == before.size
                + g[n as int].size
            &&& counts && before.allocated + g[n as int].allocated <= u64::MAX ==> after.allocated
                == before.allocated + g[n as int].allocated
        }),
{
    the_first_mark_makes_a_directory(g[n as int].flags);
    lemma_files_bounded(g, label, n);
    lemma_files_bounded(g, label, n + 1);
}

/// Down the list of types the sizes never grow; types of one size stand with the most files first.
pub proof fn types_never_grow_down_the_list(g: Seq<EntryView>, types: Seq<TypeView>, j: int, k: int)
    requires
        lists_types(g, types),
        0 <= j < k < types.len(),
    ensures
        types[j].size >= types[k].size,
        types[j].size == types[k].size ==> types[j].files >= types[k].files,
        types[j].extension != types[k].extension,
{
    assert(listed_before(types[j], types[k]));
    if types[j].extension == types[k].extension {
        text_order_is_total(types[j].extension, types[k].extension);
        assert(types[j] == type_stat(g, types[j].extension, g.len()));
        assert(types[k] == type_stat(g, types[k].extension, g.len()));
    }
}

} // verus!
