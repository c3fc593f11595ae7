//! Duplicate candidates: files with the same size, the same name and the same time of change.

use vstd::prelude::*;

use crate::graph::{is_directory, is_forest, raw_ids, EntryFlags, EntryId, EntryView, FileGraph};
use crate::order::{is_ranking_of, is_text_before, lemma_one_list, lemma_same_members, sort_ids,
    text_before, text_order_is_total, text_order_is_transitive, Ranking};
use crate::select::{ascending_lists_agree, ascends, select, select_picks};
use crate::text::{same_text, to_lowercase, unicode_lowercase};

verus! {

/// Files that may hold the same.
#[derive(Debug, Clone, PartialEq, Eq)]
pub struct DuplicateCandidate {
    pub size: u64,
    /// The name in lowercase.
    pub name: String,
    pub modified_unix: i64,
    pub entries: Vec<EntryId>,
}

/// What candidates have in common.
pub struct DuplicateKey {
    pub size: u64,
    pub name: Seq<char>,
    pub modified: i64,
}

/// Candidates: what they have in common, and who they are.
pub struct CandidateView {
    pub key: DuplicateKey,
    pub entries: Seq<u32>,
}

impl View for DuplicateCandidate {
    type V = CandidateView;

    open spec fn view(&self) -> CandidateView {
        CandidateView {
            key: DuplicateKey { size: self.size, name: self.name@, modified: self.modified_unix },
            entries: raw_ids(self.entries@),
        }
    }
}

/// Whether an entry can be a duplicate: no directory, and not empty.
pub open spec fn may_repeat(g: Seq<EntryView>, i: int) -> bool {
    !is_directory(g[i].flags) && g[i].size > 0
}

/// What entry `i` has in common with its duplicates.
pub open spec fn duplicate_key(g: Seq<EntryView>, i: int) -> DuplicateKey {
    DuplicateKey { size: g[i].size, name: unicode_lowercase(g[i].name), modified: g[i].modified }
}

/// The files with this key, ascending.
pub open spec fn files_with(g: Seq<EntryView>, key: DuplicateKey) -> Seq<u32> {
    select(g.len(), |i: int| may_repeat(g, i) && duplicate_key(g, i) == key)
}

/// Whether a key stands before another: by size, then name, then time.
pub open spec fn key_before(a: DuplicateKey, b: DuplicateKey) -> bool {
    if a.size != b.size {
        a.size < b.size
    } else if a.name != b.name {
        text_before(a.name, b.name)
    } else {
        a.modified < b.modified
    }
}

/// Whether the list holds the groups of files that share their key, each once, in order.
pub open spec fn lists_duplicates(g: Seq<EntryView>, groups: Seq<CandidateView>) -> bool {
    &&& forall|k: int|
        0 <= k < groups.len() ==> (#[trigger] groups[k]).entries == files_with(g, groups[k].key)
            && groups[k].entries.len() > 1
    &&& forall|key: DuplicateKey|
        (#[trigger] files_with(g, key)).len() > 1 ==> exists|k: int|
            0 <= k < groups.len() && (#[trigger] groups[k]).key == key
    &&& forall|j: int, k: int|
        0 <= j < k < groups.len() ==> key_before((#[trigger] groups[j]).key, (#[trigger] groups[k]).key)
}

/// What the list says.
pub open spec fn candidates_view(candidates: Seq<DuplicateCandidate>) -> Seq<CandidateView> {
    candidates.map_values(|candidate: DuplicateCandidate| candidate@)
}

// ---------------------------------------------------------------------------------------------
// Keys
// ---------------------------------------------------------------------------------------------

/// A file that can be a duplicate, with its key.
struct KeyedFile {
    id: u32,
    size: u64,
    name: String,
    modified: i64,
}

impl KeyedFile {
    spec fn key(&self) -> DuplicateKey {
        DuplicateKey { size: self.size, name: self.name@, modified: self.modified }
    }
}

pub proof fn lemma_key_order(a: DuplicateKey, b: DuplicateKey, c: DuplicateKey)
    ensures
        !(key_before(a, b) && key_before(b, a)),
        !key_before(a, b) && !key_before(b, a) <==> a == b,
        key_before(a, b) && key_before(b, c) ==> key_before(a, c),
{
    text_order_is_total(a.name, b.name);
    text_order_is_total(b.name, c.name);
    text_order_is_total(a.name, c.name);
    if text_before(a.name, b.name) && text_before(b.name, c.name) {
        text_order_is_transitive(a.name, b.name, c.name);
    }
}

struct KeyRanking<'a> {
    files: &'a Vec<KeyedFile>,
}

impl<'a> KeyRanking<'a> {
    spec fn key(&self, a: u32) -> DuplicateKey {
        self.files@[a as int].key()
    }
}

impl<'a> Ranking for KeyRanking<'a> {
    closed spec fn knows(&self, a: u32) -> bool {
        a < self.files@.len()
    }

    closed spec fn at_most(&self, a: u32, b: u32) -> bool {
        key_before(self.key(a), self.key(b)) || (self.key(a) == self.key(b) && a <= b)
    }

    proof fn total(&self, a: u32, b: u32) {
        lemma_key_order(self.key(a), self.key(b), self.key(a));
    }

    proof fn transitive(&self, a: u32, b: u32, c: u32) {
        lemma_key_order(self.key(a), self.key(b), self.key(c));
    }

    fn in_order(&self, a: u32, b: u32) -> (r: bool) {
        let first = &self.files[a as usize];
        let second = &self.files[b as usize];
        proof {
            text_order_is_total(first.name@, second.name@);
        }
        if first.size != second.size {
            return first.size < second.size;
        }
        if is_text_before(&first.name, &second.name) {
            return true;
        }
        if is_text_before(&second.name, &first.name) {
            return false;
        }
        if first.modified != second.modified {
            return first.modified < second.modified;
        }
        a <= b
    }
}

/// Whether the files are those of the first `n` entries that can be duplicates.
spec fn keyed(g: Seq<EntryView>, n: nat, files: Seq<KeyedFile>) -> bool {
    &&& files.len() <= n
    &&& forall|k: int|
        0 <= k < files.len() ==> (#[trigger] files[k]).id < n && may_repeat(g, files[k].id as int)
            && files[k].key() == duplicate_key(g, files[k].id as int)
    &&& forall|j: int, k: int|
        0 <= j < k < files.len() ==> (#[trigger] files[j]).id < (#[trigger] files[k]).id
    &&& forall|i: int|
        0 <= i < n && #[trigger] may_repeat(g, i) ==> exists|k: int|
            0 <= k < files.len() && (#[trigger] files[k]).id == i
}

fn key_files(graph: &FileGraph) -> (r: Vec<KeyedFile>)
    requires
        graph.wf(),
    ensures
        keyed(graph@, graph@.len(), r@),
{
    let ghost g = graph@;
    proof {
        graph.lemma_wf();
    }
    let n = graph.len();
    let mut files: Vec<KeyedFile> = Vec::new();
    let mut i: usize = 0;
    while i < n
        invariant
            graph.wf(),
            g == graph@,
            n == g.len(),
            n <= u32::MAX + 1,
            i <= n,
            keyed(g, i as nat, files@),
        decreases n - i,
    {
        let id = EntryId(i as u32);
        let ghost before = files@;
        match (graph.entry(id), graph.name(id), graph.stats(id)) {
            (Some(entry), Some(name), Some(stats)) => {
                if !entry.flags.contains(EntryFlags::DIRECTORY) && stats.own_size.bytes() > 0 {
                    files.push(
                        KeyedFile {
                            id: i as u32,
                            size: stats.own_size.bytes(),
                            name: to_lowercase(name),
                            modified: entry.modified_unix,
                        },
                    );
                }
            },
            _ => {},
        }
        i += 1;
        assert forall|j: int| 0 <= j < i && #[trigger] may_repeat(g, j) implies exists|k: int|
            0 <= k < files@.len() && (#[trigger] files@[k]).id == j by {
            if j < i - 1 {
                let k = choose|k: int| 0 <= k < before.len() && (#[trigger] before[k]).id == j;
                assert(files@[k].id == j);
            } else {
                assert(files@[files@.len() - 1].id == j);
            }
        }
    }
    files
}

// ---------------------------------------------------------------------------------------------
// Groups
// ---------------------------------------------------------------------------------------------

/// The files of the sorted places `from..to`.
spec fn ids_between(files: Seq<KeyedFile>, sorted: Seq<u32>, from: int, to: int) -> Seq<u32> {
    Seq::new((to - from) as nat, |k: int| files[sorted[from + k] as int].id)
}

/// Whether `from..to` is the whole run of one key.
spec fn is_run(files: Seq<KeyedFile>, sorted: Seq<u32>, from: int, to: int) -> bool {
    &&& 0 <= from < to <= sorted.len()
    &&& forall|k: int|
        0 <= k < sorted.len() ==> ((from <= k < to) <==> files[#[trigger] sorted[k] as int].key()
            == files[sorted[from] as int].key())
}

/// Whether every place of a file is sorted in.
spec fn sorts_all(files: Seq<KeyedFile>, sorted: Seq<u32>) -> bool {
    &&& sorted.len() == files.len()
    &&& forall|k: int| 0 <= k < sorted.len() ==> (#[trigger] sorted[k]) < files.len()
    &&& forall|m: u32| m < files.len() ==> #[trigger] sorted.contains(m)
    &&& forall|j: int, k: int|
        0 <= j < k < sorted.len() ==> {
            let a = files[#[trigger] sorted[j] as int].key();
            let b = files[#[trigger] sorted[k] as int].key();
            key_before(a, b) || (a == b && sorted[j] < sorted[k])
        }
}

proof fn lemma_sorts_all(
    files: Seq<KeyedFile>,
    places: Seq<u32>,
    sorted: Seq<u32>,
    ranking: &KeyRanking,
)
    requires
        ranking.files@ == files,
        files.len() <= u32::MAX + 1,
        places == Seq::new(files.len(), |k: int| k as u32),
        is_ranking_of(ranking, places, sorted),
    ensures
        sorts_all(files, sorted),
{
    lemma_same_members(places, sorted);
    assert forall|k: int| 0 <= k < sorted.len() implies (#[trigger] sorted[k]) < files.len() by {
        assert(sorted.contains(sorted[k]));
        assert(places.contains(sorted[k]));
    }
    assert forall|m: u32| m < files.len() implies #[trigger] sorted.contains(m) by {
        assert(places[m as int] == m);
        assert(places.contains(m));
    }
    assert(sorted.no_duplicates()) by {
        assert(places.no_duplicates());
        places.lemma_multiset_has_no_duplicates();
        sorted.lemma_multiset_has_no_duplicates_conv();
    }
    assert forall|j: int, k: int| 0 <= j < k < sorted.len() implies {
        let a = files[#[trigger] sorted[j] as int].key();
        let b = files[#[trigger] sorted[k] as int].key();
        key_before(a, b) || (a == b && sorted[j] < sorted[k])
    } by {
        assert(ranking.at_most(sorted[j], sorted[k]));
        assert(sorted[j] != sorted[k]);
    }
}

proof fn lemma_run_is_group(
    g: Seq<EntryView>,
    files: Seq<KeyedFile>,
    sorted: Seq<u32>,
    from: int,
    to: int,
)
    requires
        g.len() <= u32::MAX + 1,
        keyed(g, g.len(), files),
        sorts_all(files, sorted),
        is_run(files, sorted, from, to),
    ensures
        ids_between(files, sorted, from, to) == files_with(g, files[sorted[from] as int].key()),
{
    let key = files[sorted[from] as int].key();
    let shared = |i: int| may_repeat(g, i) && duplicate_key(g, i) == key;
    let group = files_with(g, key);
    let run = ids_between(files, sorted, from, to);
    select_picks(g.len(), shared);
    assert(ascends(group));
    assert(ascends(run)) by {
        assert forall|i: int, j: int| 0 <= i < j < run.len() implies #[trigger] run[i] < #[trigger] run[j] by {
            let a = sorted[from + i];
            let b = sorted[from + j];
            assert(files[a as int].key() == key && files[b as int].key() == key);
            lemma_key_order(key, key, key);
            assert(a < b);
            assert(files[a as int].id < files[b as int].id);
        }
    }
    assert forall|x: u32| #[trigger] run.contains(x) == group.contains(x) by {
        if run.contains(x) {
            let k = choose|k: int| 0 <= k < run.len() && run[k] == x;
            let at = sorted[from + k] as int;
            assert(files[at].id == x);
            assert(files[at].key() == key);
            assert(shared(x as int));
            assert(group.contains((x as int) as u32));
        }
        if group.contains(x) {
            let k = choose|k: int| 0 <= k < group.len() && group[k] == x;
            assert(shared(group[k] as int));
            assert(may_repeat(g, x as int));
            let m = choose|m: int| 0 <= m < files.len() && (#[trigger] files[m]).id == x as int;
            assert(files[m].key() == key);
            assert(sorted.contains(m as u32));
            let s = choose|s: int| 0 <= s < sorted.len() && sorted[s] == m as u32;
            assert(files[sorted[s] as int].key() == key);
            assert(from <= s < to);
            assert(run[s - from] == x);
        }
    }
    ascending_lists_agree(run, group);
}

fn collect_run(files: &Vec<KeyedFile>, sorted: &Vec<u32>, from: usize, to: usize) -> (r: Vec<EntryId>)
    requires
        from <= to <= sorted@.len(),
        forall|k: int| 0 <= k < sorted@.len() ==> (#[trigger] sorted@[k]) < files@.len(),
    ensures
        raw_ids(r@) == ids_between(files@, sorted@, from as int, to as int),
{
    let mut r: Vec<EntryId> = Vec::new();
    let mut k: usize = from;
    assert(raw_ids(r@) =~= ids_between(files@, sorted@, from as int, from as int));
    while k < to
        invariant
            from <= k <= to <= sorted@.len(),
            forall|k: int| 0 <= k < sorted@.len() ==> (#[trigger] sorted@[k]) < files@.len(),
            raw_ids(r@) == ids_between(files@, sorted@, from as int, k as int),
        decreases to - k,
    {
        let ghost shown = r@;
        let id = files[sorted[k] as usize].id;
        r.push(EntryId(id));
        k += 1;
        assert(raw_ids(r@) =~= raw_ids(shown).push(id));
        assert(raw_ids(r@) =~= ids_between(files@, sorted@, from as int, k as int));
    }
    r
}

fn same_key(a: &KeyedFile, b: &KeyedFile) -> (r: bool)
    ensures
        r == (a.key() == b.key()),
{
    a.size == b.size && a.modified == b.modified && same_text(&a.name, &b.name)
}

/// The end of the run that begins at `from`.
fn run_end(files: &Vec<KeyedFile>, sorted: &Vec<u32>, from: usize) -> (to: usize)
    requires
        from < sorted@.len(),
        sorts_all(files@, sorted@),
        from > 0 ==> key_before(
            files@[sorted@[from - 1] as int].key(),
            files@[sorted@[from as int] as int].key(),
        ),
    ensures
        is_run(files@, sorted@, from as int, to as int),
        to < sorted@.len() ==> key_before(
            files@[sorted@[to - 1] as int].key(),
            files@[sorted@[to as int] as int].key(),
        ),
{
    let ghost key = files@[sorted@[from as int] as int].key();
    assert(sorted.len() == sorted@.len());
    let mut to: usize = from + 1;
    while to < sorted.len() && same_key(&files[sorted[to] as usize], &files[sorted[from] as usize])
        invariant
            from < to <= sorted@.len(),
            sorts_all(files@, sorted@),
            key == files@[sorted@[from as int] as int].key(),
            forall|k: int|
                from <= k < to ==> files@[#[trigger] sorted@[k] as int].key() == key,
        decreases sorted@.len() - to,
    {
        to += 1;
    }
    proof {
        if to < sorted.len() {
            assert(files@[sorted@[to - 1] as int].key() == key);
            lemma_key_order(key, files@[sorted@[to as int] as int].key(), key);
            assert(key_before(
                files@[sorted@[to - 1] as int].key(),
                files@[sorted@[to as int] as int].key(),
            ));
        }
        assert forall|k: int| 0 <= k < sorted@.len() implies ((from <= k < to) <==>
            files@[#[trigger] sorted@[k] as int].key() == key) by {
            let own = files@[sorted@[k] as int].key();
            if k < from {
                let last = files@[sorted@[from - 1] as int].key();
                lemma_key_order(own, last, key);
                lemma_key_order(own, key, own);
                lemma_key_order(last, key, last);
            } else if k >= to {
                let next = files@[sorted@[to as int] as int].key();
                lemma_key_order(key, next, own);
                lemma_key_order(own, key, own);
                lemma_key_order(next, own, next);
            }
        }
    }
    to
}

/// The groups of files that share their size, their name but for its case, and their time of
/// change, ordered by these.
#[must_use]
pub fn find_duplicate_candidates(graph: &FileGraph) -> (r: Vec<DuplicateCandidate>)
    requires
        graph.wf(),
    ensures
        lists_duplicates(graph@, candidates_view(r@)),
{
    let ghost g = graph@;
    proof {
        graph.lemma_wf();
    }
    let files = key_files(graph);
    let n = files.len();
    let mut places: Vec<u32> = Vec::new();
    let mut i: usize = 0;
    while i < n
        invariant
            n == files@.len(),
            n <= u32::MAX + 1,
            i <= n,
            places@ == Seq::new(i as nat, |k: int| k as u32),
        decreases n - i,
    {
        places.push(i as u32);
        i += 1;
    }
    let ranking = KeyRanking { files: &files };
    let sorted = sort_ids(&ranking, &places);
    proof {
        lemma_sorts_all(files@, places@, sorted@, &ranking);
    }
    let mut r: Vec<DuplicateCandidate> = Vec::new();
    let mut from: usize = 0;
    while from < sorted.len()
        invariant
            is_forest(g),
            keyed(g, g.len(), files@),
            sorts_all(files@, sorted@),
            from <= sorted@.len(),
            0 < from < sorted@.len() ==> key_before(
                files@[sorted@[from - 1] as int].key(),
                files@[sorted@[from as int] as int].key(),
            ),
            forall|k: int|
                0 <= k < r@.len() ==> (#[trigger] r@[k])@.entries == files_with(g, r@[k]@.key)
                    && r@[k]@.entries.len() > 1,
            forall|k: int|
                0 <= k < r@.len() && from < sorted@.len() ==> key_before(
                    (#[trigger] r@[k])@.key,
                    files@[sorted@[from as int] as int].key(),
                ),
            forall|j: int, k: int|
                0 <= j < k < r@.len() ==> key_before((#[trigger] r@[j])@.key, (#[trigger] r@[k])@.key),
            forall|s: int|
                0 <= s < from && files_with(g, files@[#[trigger] sorted@[s] as int].key()).len() > 1
                    ==> exists|k: int|
                    0 <= k < r@.len() && (#[trigger] r@[k])@.key == files@[sorted@[s] as int].key(),
        decreases sorted@.len() - from,
    {
        let to = run_end(&files, &sorted, from);
        let ghost before = r@;
        let first = &files[sorted[from] as usize];
        let ghost key = first.key();
        proof {
            lemma_run_is_group(g, files@, sorted@, from as int, to as int);
        }
        if to - from > 1 {
            let entries = collect_run(&files, &sorted, from, to);
            let candidate = DuplicateCandidate {
                size: first.size,
                name: first.name.clone(),
                modified_unix: first.modified,
                entries,
            };
            assert(candidate@.key == key);
            r.push(candidate);
        }
        proof {
            if to < sorted@.len() {
                let next = files@[sorted@[to as int] as int].key();
                assert(files@[sorted@[to - 1] as int].key() == key);
                assert forall|k: int| 0 <= k < r@.len() implies key_before(
                    (#[trigger] r@[k])@.key,
                    next,
                ) by {
                    lemma_key_order(r@[k]@.key, key, next);
                }
            }
            assert forall|s: int|
                0 <= s < to && files_with(g, files@[#[trigger] sorted@[s] as int].key()).len()
                    > 1 implies exists|k: int|
                0 <= k < r@.len() && (#[trigger] r@[k])@.key == files@[sorted@[s] as int].key() by {
                if s < from {
                    let k = choose|k: int|
                        0 <= k < before.len() && (#[trigger] before[k])@.key
                            == files@[sorted@[s] as int].key();
                    assert(r@[k] == before[k]);
                } else {
                    assert(files@[sorted@[s] as int].key() == key);
                    assert(r@[r@.len() - 1]@.key == key);
                }
            }
        }
        from = to;
    }
    proof {
        lemma_all_groups(g, files@, sorted@, r@);
    }
    r
}

/// There are no more groups than files: the first file of each is in no other.
pub proof fn lemma_few_candidates(g: Seq<EntryView>, groups: Seq<CandidateView>)
    requires
        is_forest(g),
        lists_duplicates(g, groups),
    ensures
        groups.len() <= g.len(),
{
    let firsts = Seq::new(groups.len(), |k: int| groups[k].entries[0] as int);
    assert forall|k: int| 0 <= k < groups.len() implies 0 <= #[trigger] firsts[k] < g.len()
        && duplicate_key(g, firsts[k]) == groups[k].key by {
        let key = groups[k].key;
        let shared = |i: int| may_repeat(g, i) && duplicate_key(g, i) == key;
        select_picks(g.len(), shared);
        assert(groups[k].entries == files_with(g, key));
        assert(shared(files_with(g, key)[0] as int));
    }
    assert(firsts.no_duplicates()) by {
        assert forall|j: int, k: int| 0 <= j < firsts.len() && 0 <= k < firsts.len() && j
            != k implies firsts[j] != firsts[k] by {
            lemma_key_order(groups[j].key, groups[k].key, groups[j].key);
            if j < k {
                assert(key_before(groups[j].key, groups[k].key));
            } else {
                assert(key_before(groups[k].key, groups[j].key));
            }
        }
    }
    firsts.unique_seq_to_set();
    let range = vstd::set_lib::set_int_range(0, g.len() as int);
    vstd::set_lib::lemma_int_range(0, g.len() as int);
    assert(firsts.to_set().subset_of(range)) by {
        assert forall|x: int| firsts.to_set().contains(x) implies range.contains(x) by {
            let k = choose|k: int| 0 <= k < firsts.len() && firsts[k] == x;
            assert(0 <= firsts[k] < g.len());
        }
    }
    vstd::set_lib::lemma_len_subset(firsts.to_set(), range);
}

proof fn lemma_all_groups(
    g: Seq<EntryView>,
    files: Seq<KeyedFile>,
    sorted: Seq<u32>,
    r: Seq<DuplicateCandidate>,
)
    requires
        is_forest(g),
        keyed(g, g.len(), files),
        sorts_all(files, sorted),
        forall|k: int|
            0 <= k < r.len() ==> (#[trigger] r[k])@.entries == files_with(g, r[k]@.key)
                && r[k]@.entries.len() > 1,
        forall|j: int, k: int|
            0 <= j < k < r.len() ==> key_before((#[trigger] r[j])@.key, (#[trigger] r[k])@.key),
        forall|s: int|
            0 <= s < sorted.len() && files_with(g, files[#[trigger] sorted[s] as int].key()).len() > 1
                ==> exists|k: int|
                0 <= k < r.len() && (#[trigger] r[k])@.key == files[sorted[s] as int].key(),
    ensures
        lists_duplicates(g, candidates_view(r)),
{
    let groups = candidates_view(r);
    assert forall|k: int| 0 <= k < groups.len() implies (#[trigger] groups[k]).entries == files_with(
        g,
        groups[k].key,
    ) && groups[k].entries.len() > 1 by {
        assert(groups[k] == r[k]@);
    }
    assert forall|j: int, k: int| 0 <= j < k < groups.len() implies key_before(
        (#[trigger] groups[j]).key,
        (#[trigger] groups[k]).key,
    ) by {
        assert(groups[j] == r[j]@ && groups[k] == r[k]@);
    }
    assert forall|key: DuplicateKey| (#[trigger] files_with(g, key)).len() > 1 implies exists|k: int|
        0 <= k < groups.len() && (#[trigger] groups[k]).key == key by {
        let shared = |i: int| may_repeat(g, i) && duplicate_key(g, i) == key;
        select_picks(g.len(), shared);
        let group = files_with(g, key);
        let x = group[0] as int;
        assert(shared(x));
        assert(may_repeat(g, x));
        let m = choose|m: int| 0 <= m < files.len() && (#[trigger] files[m]).id == x;
        assert(sorted.contains(m as u32));
        let s = choose|s: int| 0 <= s < sorted.len() && sorted[s] == m as u32;
        assert(files[sorted[s] as int].key() == key);
        let k = choose|k: int| 0 <= k < r.len() && (#[trigger] r[k])@.key == key;
        assert(groups[k].key == key);
    }
}

/// There is only one list of the duplicates of a graph.
pub proof fn duplicates_are_listed_one_way(
    g: Seq<EntryView>,
    a: Seq<CandidateView>,
    b: Seq<CandidateView>,
)
    requires
        lists_duplicates(g, a),
        lists_duplicates(g, b),
    ensures
        a == b,
{
    let before = |x: CandidateView, y: CandidateView| key_before(x.key, y.key);
    lemma_listed_in_both(g, a, b);
    lemma_listed_in_both(g, b, a);
    assert forall|x: CandidateView, y: CandidateView| #[trigger] before(x, y) implies !before(
        y,
        x,
    ) by {
        lemma_key_order(x.key, y.key, x.key);
    }
    lemma_one_list(a, b, before);
}

proof fn lemma_listed_in_both(g: Seq<EntryView>, a: Seq<CandidateView>, b: Seq<CandidateView>)
    requires
        lists_duplicates(g, a),
        lists_duplicates(g, b),
    ensures
        forall|x: CandidateView| a.contains(x) ==> b.contains(x),
{
    assert forall|x: CandidateView| a.contains(x) implies b.contains(x) by {
        let k = choose|k: int| 0 <= k < a.len() && a[k] == x;
        assert(files_with(g, a[k].key).len() > 1);
        let m = choose|m: int| 0 <= m < b.len() && (#[trigger] b[m]).key == x.key;
        assert(b[m].entries == files_with(g, b[m].key));
        assert(b[m] == x);
    }
}

/// The files of a group have its size, its name but for the case of letters, and its time of change,
/// all of them the same; none is empty or a directory, and there are at least two, each once.
pub proof fn files_of_a_group_are_alike(g: Seq<EntryView>, groups: Seq<CandidateView>, k: int)
    requires
        g.len() <= u32::MAX + 1,
        lists_duplicates(g, groups),
        0 <= k < groups.len(),
    ensures
        groups[k].entries.len() >= 2,
        forall|a: int, b: int|
            0 <= a < b < groups[k].entries.len() ==> #[trigger] groups[k].entries[a]
                < #[trigger] groups[k].entries[b],
        forall|a: int| #![trigger groups[k].entries[a]]
            0 <= a < groups[k].entries.len() ==> {
                let i = groups[k].entries[a] as int;
                &&& i < g.len()
                &&& g[i].size == groups[k].key.size
                &&& unicode_lowercase(g[i].name) == groups[k].key.name
                &&& g[i].modified == groups[k].key.modified
                &&& g[i].size > 0
                &&& g[i].flags % 2 == 0
            },
{
    let key = groups[k].key;
    let shared = |i: int| may_repeat(g, i) && duplicate_key(g, i) == key;
    select_picks(g.len(), shared);
    let entries = groups[k].entries;
    assert(entries == select(g.len(), shared));
    assert forall|a: int| #![trigger entries[a]] 0 <= a < entries.len() implies {
        let i = entries[a] as int;
        &&& i < g.len()
        &&& g[i].size == key.size
        &&& unicode_lowercase(g[i].name) == key.name
        &&& g[i].modified == key.modified
        &&& g[i].size > 0
        &&& g[i].flags % 2 == 0
    } by {
        let i = entries[a] as int;
        assert(shared(i));
        let flags = g[i].flags;
        assert(flags & 1 != 1 ==> flags % 2 == 0) by (bit_vector);
    }
}

/// Two files that are not empty and agree in size, name but for the case of letters, and time of
/// change stand in one group; where they differ in one of these, in none.
pub proof fn files_stand_together_where_they_agree(
    g: Seq<EntryView>,
    groups: Seq<CandidateView>,
    a: u32,
    b: u32,
)
    requires
        g.len() <= u32::MAX + 1,
        lists_duplicates(g, groups),
        a < g.len(),
        b < g.len(),
        a != b,
    ensures
        (exists|k: int|
            0 <= k < groups.len() && (#[trigger] groups[k]).entries.contains(a)
                && groups[k].entries.contains(b)) <==> {
            &&& g[a as int].flags % 2 == 0
            &&& g[b as int].flags % 2 == 0
            &&& g[a as int].size > 0
            &&& g[a as int].size == g[b as int].size
            &&& unicode_lowercase(g[a as int].name) == unicode_lowercase(g[b as int].name)
            &&& g[a as int].modified == g[b as int].modified
        },
{
    let x = g[a as int];
    let y = g[b as int];
    let alike = {
        &&& x.flags % 2 == 0
        &&& y.flags % 2 == 0
        &&& x.size > 0
        &&& x.size == y.size
        &&& unicode_lowercase(x.name) == unicode_lowercase(y.name)
        &&& x.modified == y.modified
    };
    let own = x.flags;
    let other = y.flags;
    assert((own & 1 == 1) == (own % 2 == 1)) by (bit_vector);
    assert((other & 1 == 1) == (other % 2 == 1)) by (bit_vector);
    if exists|k: int|
        0 <= k < groups.len() && (#[trigger] groups[k]).entries.contains(a)
            && groups[k].entries.contains(b) {
        let k = choose|k: int|
            0 <= k < groups.len() && (#[trigger] groups[k]).entries.contains(a)
                && groups[k].entries.contains(b);
        files_of_a_group_are_alike(g, groups, k);
        let m = choose|m: int| 0 <= m < groups[k].entries.len() && groups[k].entries[m] == a;
        let n = choose|n: int| 0 <= n < groups[k].entries.len() && groups[k].entries[n] == b;
        assert(groups[k].entries[m] == a && groups[k].entries[n] == b);
        assert(alike);
    }
    if alike {
        let key = duplicate_key(g, a as int);
        let shared = |i: int| may_repeat(g, i) && duplicate_key(g, i) == key;
        select_picks(g.len(), shared);
        assert(shared(a as int) && shared(b as int));
        let files = files_with(g, key);
        assert(files == select(g.len(), shared));
        assert(files.contains(a) && files.contains(b));
        assert(files.len() > 1) by {
            let m = choose|m: int| 0 <= m < files.len() && files[m] == a;
            let n = choose|n: int| 0 <= n < files.len() && files[n] == b;
            assert(m != n);
        }
        let k = choose|k: int| 0 <= k < groups.len() && (#[trigger] groups[k]).key == key;
        assert(groups[k].entries == files_with(g, groups[k].key));
    }
}

/// Groups are listed with the smallest files first, those of one size by name, and those of one name
/// with the earliest first.
pub proof fn groups_are_listed_by_size_name_and_time(
    g: Seq<EntryView>,
    groups: Seq<CandidateView>,
    j: int,
    k: int,
)
    requires
        lists_duplicates(g, groups),
        0 <= j < k < groups.len(),
    ensures
        groups[j].key.size <= groups[k].key.size,
        groups[j].key.size == groups[k].key.size ==> groups[j].key.name == groups[k].key.name
            || text_before(groups[j].key.name, groups[k].key.name),
        groups[j].key.size == groups[k].key.size && groups[j].key.name == groups[k].key.name
            ==> groups[j].key.modified < groups[k].key.modified,
{
    assert(key_before(groups[j].key, groups[k].key));
}

} // verus!
