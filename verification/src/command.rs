//! The command line: its arguments, what a scan command asks for, and what is written of a scan.

use vstd::prelude::*;

use crate::filter::{accepts, passes, pattern_texts, CompiledFilter, FilterError, NameMatcher,
    QueryFilter};
use crate::graph::{children, is_forest, path_of, raw_ids, subtree_sum,
    the_first_mark_makes_a_directory, within, EntryId, EntryView, FileGraph};
use crate::numbers::{decimal, push_decimal};
use crate::ranking::{is_top, nothing_larger_is_left_out, size_that_counts, the_top_is_picked,
    the_whole_is_its_own_top, top_entries_by_total_size, OrderKey};
use crate::select::select_picks;
use crate::targets::{a_drive_is_known_by_its_letter, drive_for_path, drive_for_path_spec,
    is_capital_of, normalized_path_key, path_key, resolved_scan_path, resolved_spec, str_view,
    text_view, ScannerMode};
use crate::text::{chars_of, push_text, same_text, strings_view};
use crate::totals::{lemma_one_step_below, lemma_step_below_hangs, parentless_ids, step_below};
use crate::tree::{all_entries, child_lists, root_ids};

verus! {

// ---------------------------------------------------------------------------------------------
// Arguments
// ---------------------------------------------------------------------------------------------

/// What is put before the first argument so that a command begins with its name: nothing before a
/// name, `scan` before a path, and `scan .` where there is no path.
pub open spec fn words_before(first: Option<Seq<char>>) -> Seq<Seq<char>> {
    match first {
        None => seq!["scan"@, "."@],
        Some(word) => if word == "scan"@ || word == "ntfs-probe"@ || word == "volumes"@ || word
            == "--help"@ || word == "-h"@ {
            Seq::empty()
        } else if word.len() > 0 && word[0] == '-' {
            seq!["scan"@, "."@]
        } else {
            seq!["scan"@]
        },
    }
}

/// What is put before the first argument; see [`words_before`].
#[must_use]
pub fn inserted_words(first: Option<&str>) -> (r: Vec<String>)
    ensures
        strings_view(r@) == words_before(str_view(first)),
{
    let mut r: Vec<String> = Vec::new();
    match first {
        None => {
            r.push("scan".to_owned());
            r.push(".".to_owned());
        },
        Some(word) => {
            if !(same_text(word, "scan") || same_text(word, "ntfs-probe") || same_text(
                word,
                "volumes",
            ) || same_text(word, "--help") || same_text(word, "-h")) {
                r.push("scan".to_owned());
                let v = chars_of(word);
                if v.len() > 0 && v[0] == '-' {
                    r.push(".".to_owned());
                }
            }
        },
    }
    assert(strings_view(r@) =~= words_before(str_view(first)));
    r
}

/// The arguments with the words before the first one put in; the name of the program stays in front.
pub open spec fn normalized_args(args: Seq<Seq<char>>) -> Seq<Seq<char>> {
    if args.len() == 0 {
        args
    } else {
        seq![args[0]] + words_before(
            if args.len() > 1 {
                Some(args[1])
            } else {
                None
            },
        ) + args.skip(1)
    }
}

/// The arguments with the words before the first one put in; the name of the program stays in front.
#[must_use]
pub fn normalize_args(args: Vec<String>) -> (r: Vec<String>)
    ensures
        strings_view(r@) == normalized_args(strings_view(args@)),
{
    let ghost texts = strings_view(args@);
    if args.len() == 0 {
        return args;
    }
    let words = if args.len() > 1 {
        inserted_words(Some(args[1].as_str()))
    } else {
        inserted_words(None)
    };
    let mut r: Vec<String> = Vec::new();
    r.push(args[0].clone());
    let mut words = words;
    let ghost inserted = strings_view(words@);
    r.append(&mut words);
    assert(strings_view(r@) =~= seq![texts[0]] + inserted);
    let mut i: usize = 1;
    assert(texts.subrange(1, 1) =~= Seq::<Seq<char>>::empty());
    while i < args.len()
        invariant
            1 <= i <= args@.len(),
            texts == strings_view(args@),
            strings_view(r@) == seq![texts[0]] + inserted + texts.subrange(1, i as int),
        decreases args@.len() - i,
    {
        let ghost shown = r@;
        let arg = args[i].clone();
        r.push(arg);
        i += 1;
        assert(strings_view(r@) =~= strings_view(shown).push(arg@));
        assert(texts.subrange(1, i as int) =~= texts.subrange(1, i - 1).push(texts[i - 1]));
        assert(strings_view(r@) =~= seq![texts[0]] + inserted + texts.subrange(1, i as int));
    }
    assert(texts.subrange(1, texts.len() as int) =~= texts.skip(1));
    r
}

/// What a scan is asked for.
#[derive(Debug)]
pub struct ScanCommand {
    pub path: String,
    pub scanner: ScannerMode,
    pub csv: Option<String>,
    pub name: Option<String>,
    pub path_filter: Option<String>,
    pub regex: bool,
    pub extension: Option<String>,
    pub min_size: Option<u64>,
    pub max_size: Option<u64>,
    pub min_allocated: Option<u64>,
    pub max_allocated: Option<u64>,
    pub modified_after: Option<i64>,
    pub modified_before: Option<i64>,
    pub files_only: bool,
    pub follow_symlinks: bool,
    pub precise_allocated: bool,
    pub duplicates: bool,
    pub file_types: bool,
    pub deep: bool,
    pub limit: usize,
    pub summary_only: bool,
    pub raw: bool,
    pub elevated_output: Option<String>,
}

/// Whether a scan asks for some entries and not for others.
pub open spec fn has_filters(command: ScanCommand) -> bool {
    command.name is Some || command.path_filter is Some || command.regex || command.extension is Some
        || command.min_size is Some || command.max_size is Some || command.min_allocated is Some
        || command.max_allocated is Some || command.modified_after is Some
        || command.modified_before is Some || command.files_only
}

/// Whether a scan asks for some entries and not for others.
#[must_use]
pub fn command_has_filters(command: &ScanCommand) -> (r: bool)
    ensures
        r == has_filters(*command),
{
    command.name.is_some() || command.path_filter.is_some() || command.regex
        || command.extension.is_some() || command.min_size.is_some() || command.max_size.is_some()
        || command.min_allocated.is_some() || command.max_allocated.is_some()
        || command.modified_after.is_some() || command.modified_before.is_some()
        || command.files_only
}

/// Whether a matcher is the one for this argument: none where it is not given, else one for texts
/// with a match of the pattern or with the text in them.
pub open spec fn is_matcher_of(matcher: Option<NameMatcher>, pattern: Option<Seq<char>>, regex: bool) -> bool {
    match pattern {
        None => matcher is None,
        Some(text) => if regex {
            matcher matches Some(NameMatcher::Regex(re)) && forall|t: Seq<char>| #[trigger]
                accepts(NameMatcher::Regex(re), t) == pattern_texts(text).contains(t)
        } else {
            matcher matches Some(NameMatcher::Contains(needle)) && needle@ == text
        },
    }
}

/// The matcher for an argument.
pub fn matcher_from_pattern(pattern: Option<&str>, regex: bool) -> (r: Result<
    Option<NameMatcher>,
    FilterError,
>)
    ensures
        r matches Ok(matcher) ==> is_matcher_of(matcher, str_view(pattern), regex),
        !regex || pattern is None ==> r is Ok,
{
    match pattern {
        None => Ok(None),
        Some(text) => if regex {
            match NameMatcher::regex(text) {
                Ok(matcher) => Ok(Some(matcher)),
                Err(error) => Err(error),
            }
        } else {
            Ok(Some(NameMatcher::contains(text)))
        },
    }
}

/// Whether the filter asks for what the command asks for, apart from names and paths.
pub open spec fn filters_as(filter: QueryFilter, command: ScanCommand) -> bool {
    &&& text_view(filter.extension) == text_view(command.extension)
    &&& filter.min_size == command.min_size
    &&& filter.max_size == command.max_size
    &&& filter.min_allocated == command.min_allocated
    &&& filter.max_allocated == command.max_allocated
    &&& filter.modified_after == command.modified_after
    &&& filter.modified_before == command.modified_before
    &&& filter.include_directories == !command.files_only
}

fn option_str(text: &Option<String>) -> (r: Option<&str>)
    ensures
        str_view(r) == text_view(*text),
{
    match text {
        Some(s) => Some(s.as_str()),
        None => None,
    }
}

/// The filter that a command asks for with these matchers for names and paths.
#[must_use]
pub fn filter_with(command: &ScanCommand, name: Option<NameMatcher>, path: Option<NameMatcher>) -> (r:
    QueryFilter)
    ensures
        filters_as(r, *command),
        r.name == name,
        r.path == path,
{
    QueryFilter {
        name,
        extension: match &command.extension {
            Some(extension) => Some(extension.clone()),
            None => None,
        },
        path,
        min_size: command.min_size,
        max_size: command.max_size,
        min_allocated: command.min_allocated,
        max_allocated: command.max_allocated,
        modified_after: command.modified_after,
        modified_before: command.modified_before,
        include_directories: !command.files_only,
    }
}

/// The filter that a command asks for.
pub fn query_filter(command: &ScanCommand) -> (r: Result<QueryFilter, FilterError>)
    ensures
        r matches Ok(filter) ==> {
            &&& filters_as(filter, *command)
            &&& is_matcher_of(filter.name, text_view(command.name), command.regex)
            &&& is_matcher_of(filter.path, text_view(command.path_filter), command.regex)
        },
        !command.regex || (command.name is None && command.path_filter is None) ==> r is Ok,
{
    let name = matcher_from_pattern(option_str(&command.name), command.regex)?;
    let path = matcher_from_pattern(option_str(&command.path_filter), command.regex)?;
    Ok(filter_with(command, name, path))
}

/// Whether a scan of a full path has to run as administrator.
pub open spec fn needs_elevation(full: Seq<char>, scanner: ScannerMode) -> bool {
    scanner != ScannerMode::Fallback && drive_for_path_spec(full) is Some
}

/// Whether a scan has to run as administrator: any but one by traversal, on a path with a drive.
#[must_use]
pub fn scan_needs_elevation(
    path: &str,
    canonical: Option<&str>,
    current_dir: Option<&str>,
    scanner: ScannerMode,
) -> (r: bool)
    ensures
        r == (scanner != ScannerMode::Fallback && drive_for_path_spec(
            resolved_spec(path@, str_view(canonical), str_view(current_dir)),
        ) is Some),
        r == needs_elevation(
            resolved_spec(path@, str_view(canonical), str_view(current_dir)),
            scanner,
        ),
{
    match scanner {
        ScannerMode::Fallback => false,
        _ => drive_for_path(&resolved_scan_path(path, canonical, current_dir)).is_some(),
    }
}

/// What a scan does first.
#[derive(Debug, Clone, Copy, PartialEq, Eq, Structural)]
pub enum ScanStep {
    /// Walk the directories.
    Traverse,
    /// Read the volume, and walk the directories where that fails.
    ReadVolumeOrTraverse,
    /// Read the volume, and fail where that fails.
    ReadVolume,
}

/// What a scan of a full path does first.
pub open spec fn step_of(scanner: ScannerMode, full: Seq<char>, elevated: bool) -> ScanStep {
    match scanner {
        ScannerMode::Fallback => ScanStep::Traverse,
        ScannerMode::Ntfs => ScanStep::ReadVolume,
        ScannerMode::Auto => if drive_for_path_spec(full) is Some && elevated {
            ScanStep::ReadVolumeOrTraverse
        } else {
            ScanStep::Traverse
        },
    }
}

/// What a scan does first: without a choice it reads the volume where there is one and the program
/// runs as administrator.
#[must_use]
pub fn first_step(scanner: ScannerMode, resolved: &str, elevated: bool) -> (r: ScanStep)
    ensures
        r == match scanner {
            ScannerMode::Fallback => ScanStep::Traverse,
            ScannerMode::Ntfs => ScanStep::ReadVolume,
            ScannerMode::Auto => if drive_for_path_spec(resolved@) is Some && elevated {
                ScanStep::ReadVolumeOrTraverse
            } else {
                ScanStep::Traverse
            },
        },
        r == step_of(scanner, resolved@, elevated),
{
    match scanner {
        ScannerMode::Fallback => ScanStep::Traverse,
        ScannerMode::Ntfs => ScanStep::ReadVolume,
        ScannerMode::Auto => if drive_for_path(resolved).is_some() && elevated {
            ScanStep::ReadVolumeOrTraverse
        } else {
            ScanStep::Traverse
        },
    }
}

/// What comes of a volume that could not be read: the reason to walk the directories instead, where
/// that is what the scan does then, else the scan's own error.
pub fn after_failed_read(step: ScanStep, error: String) -> (r: Result<String, String>)
    ensures
        step == ScanStep::ReadVolumeOrTraverse ==> (r matches Ok(reason) && reason@ == error@),
        step != ScanStep::ReadVolumeOrTraverse ==> (r matches Err(e) && e@ == error@),
{
    match step {
        ScanStep::ReadVolumeOrTraverse => Ok(error),
        _ => Err(error),
    }
}

// ---------------------------------------------------------------------------------------------
// Which entries are shown
// ---------------------------------------------------------------------------------------------

/// Where the first entry from `from` on stands whose path is `target` to the eye, or the length.
pub open spec fn place_of_path(g: Seq<EntryView>, target: Seq<char>, from: int) -> int
    decreases g.len() - from,
{
    if from < 0 || from >= g.len() || path_key(path_of(g, from)) == path_key(target) {
        from
    } else {
        place_of_path(g, target, from + 1)
    }
}

/// The first entry whose path is `target` to the eye.
pub open spec fn entry_at_path(g: Seq<EntryView>, target: Seq<char>) -> Option<u32> {
    let i = place_of_path(g, target, 0);
    if 0 <= i < g.len() {
        Some(i as u32)
    } else {
        None
    }
}

/// The first entry whose path is `target`, whatever the case of ASCII letters.
#[must_use]
pub fn find_graph_path(graph: &FileGraph, target: &str) -> (r: Option<EntryId>)
    requires
        graph.wf(),
    ensures
        crate::graph::parent_view(r) == entry_at_path(graph@, target@),
        r matches Some(id) ==> id.0 < graph@.len(),
{
    let ghost g = graph@;
    proof {
        graph.lemma_wf();
    }
    let wanted = normalized_path_key(target);
    let n = graph.len();
    let mut i: usize = 0;
    while i < n
        invariant
            graph.wf(),
            g == graph@,
            n == g.len(),
            n <= u32::MAX + 1,
            i <= n,
            wanted@ == path_key(target@),
            place_of_path(g, target@, 0) == place_of_path(g, target@, i as int),
        decreases n - i,
    {
        let id = EntryId(i as u32);
        if let Some(path) = graph.reconstruct_path(id) {
            if same_text(&normalized_path_key(&path), &wanted) {
                return Some(id);
            }
        }
        i += 1;
    }
    None
}

/// The entries at the top of what is shown: the one at the path that is asked for, where there is
/// one, else those without a parent.
pub open spec fn visible_roots(g: Seq<EntryView>, display_root: Option<Seq<char>>) -> Seq<u32> {
    match display_root {
        Some(path) => match entry_at_path(g, path) {
            Some(id) => seq![id],
            None => root_ids(g),
        },
        None => root_ids(g),
    }
}

proof fn lemma_visible_roots(g: Seq<EntryView>, display_root: Option<Seq<char>>)
    requires
        is_forest(g),
    ensures
        all_entries(g, visible_roots(g, display_root)),
{
    select_picks(g.len(), |i: int| g[i].parent is None);
}

/// The entries at the top of what is shown.
#[must_use]
pub fn visible_root_ids(graph: &FileGraph, display_root: Option<&str>) -> (r: Vec<EntryId>)
    requires
        graph.wf(),
    ensures
        raw_ids(r@) == visible_roots(graph@, str_view(display_root)),
{
    if let Some(path) = display_root {
        if let Some(root) = find_graph_path(graph, path) {
            let mut r: Vec<EntryId> = Vec::new();
            r.push(root);
            assert(raw_ids(r@) =~= seq![root.0]);
            return r;
        }
    }
    parentless_ids(graph)
}

/// An entry and everything below it, each before what is below it, the last of the entries right
/// below another first.
pub open spec fn subtree(g: Seq<EntryView>, id: u32) -> Seq<u32>
    decreases g.len() - id, 0nat,
{
    if id >= g.len() {
        seq![id]
    } else {
        seq![id] + subtrees(g, children(g, id), id as int)
    }
}

/// The entries `ids`, which follow `above`, and everything below them, the last first.
pub open spec fn subtrees(g: Seq<EntryView>, ids: Seq<u32>, above: int) -> Seq<u32>
    decreases g.len() - above - 1, ids.len() + 1,
{
    if ids.len() == 0 {
        Seq::empty()
    } else {
        (if above < ids.last() && ids.last() < g.len() {
            subtree(g, ids.last())
        } else {
            Seq::empty()
        }) + subtrees(g, ids.drop_last(), above)
    }
}

/// Whether the numbers are those of entries behind `above`.
spec fn follow(g: Seq<EntryView>, ids: Seq<u32>, above: int) -> bool {
    forall|k: int| 0 <= k < ids.len() ==> above < #[trigger] ids[k] && ids[k] < g.len()
}

proof fn lemma_subtrees_above(g: Seq<EntryView>, ids: Seq<u32>, a: int, b: int)
    requires
        follow(g, ids, a),
        follow(g, ids, b),
    ensures
        subtrees(g, ids, a) == subtrees(g, ids, b),
    decreases ids.len(),
{
    if ids.len() > 0 {
        assert(ids.last() == ids[ids.len() - 1]);
        assert forall|k: int| 0 <= k < ids.drop_last().len() implies a < #[trigger] ids.drop_last()[k]
            && b < ids.drop_last()[k] && ids.drop_last()[k] < g.len() by {
            assert(ids.drop_last()[k] == ids[k]);
        }
        lemma_subtrees_above(g, ids.drop_last(), a, b);
    }
}

proof fn lemma_subtrees_join(g: Seq<EntryView>, first: Seq<u32>, second: Seq<u32>, above: int)
    ensures
        subtrees(g, first + second, above) == subtrees(g, second, above) + subtrees(g, first, above),
    decreases second.len(),
{
    if second.len() == 0 {
        assert(first + second =~= first);
        assert(subtrees(g, second, above) + subtrees(g, first, above) =~= subtrees(g, first, above));
    } else {
        assert((first + second).drop_last() =~= first + second.drop_last());
        assert((first + second).last() == second.last());
        lemma_subtrees_join(g, first, second.drop_last(), above);
        assert(subtrees(g, first + second, above) =~= subtrees(g, second, above) + subtrees(
            g,
            first,
            above,
        ));
    }
}

proof fn lemma_children_follow(g: Seq<EntryView>, id: u32)
    requires
        is_forest(g),
    ensures
        follow(g, children(g, id), id as int),
        follow(g, children(g, id), -1),
{
    let hangs = |i: int| g[i].parent == Some(id);
    select_picks(g.len(), hangs);
    let ids = children(g, id);
    assert forall|k: int| 0 <= k < ids.len() implies id < #[trigger] ids[k] && ids[k] < g.len() by {
        assert(hangs(ids[k] as int));
    }
}

/// An entry and everything below it; see [`subtree`].
fn append_descendants(lists: &Vec<Vec<u32>>, root: u32, out: &mut Vec<u32>, Ghost(g): Ghost<Seq<EntryView>>)
    requires
        is_forest(g),
        lists@.len() == g.len(),
        forall|q: int| 0 <= q < g.len() ==> (#[trigger] lists@[q])@ == children(g, q as u32),
        root < g.len(),
    ensures
        final(out)@ == old(out)@ + subtree(g, root),
{
    let ghost before = out@;
    let ghost whole = subtree(g, root);
    let mut pending: Vec<u32> = Vec::new();
    pending.push(root);
    let ghost mut found: Seq<u32> = Seq::empty();
    proof {
        reveal_with_fuel(subtrees, 2);
        assert(pending@.drop_last() =~= Seq::<u32>::empty());
        assert(pending@.last() == root);
        assert(subtrees(g, pending@, -1) =~= whole);
        assert(found + subtrees(g, pending@, -1) =~= whole);
        assert(out@ =~= before + found);
    }
    loop
        invariant
            is_forest(g),
            lists@.len() == g.len(),
            forall|q: int| 0 <= q < g.len() ==> (#[trigger] lists@[q])@ == children(g, q as u32),
            follow(g, pending@, -1),
            found + subtrees(g, pending@, -1) == whole,
            out@ == before + found,
        ensures
            out@ == before + whole,
        decreases whole.len() - found.len(),
    {
        let ghost stack = pending@;
        match pending.pop() {
            None => {
                assert(found + subtrees(g, stack, -1) =~= found);
                break;
            },
            Some(id) => {
                let ghost rest = pending@;
                proof {
                    assert(stack.last() == id);
                    assert(stack[stack.len() - 1] == id);
                    assert(stack.drop_last() =~= rest);
                    lemma_children_follow(g, id);
                    lemma_subtrees_above(g, children(g, id), id as int, -1);
                    lemma_subtrees_join(g, rest, children(g, id), -1);
                    assert forall|k: int| 0 <= k < (rest + children(g, id)).len() implies -1
                        < #[trigger] (rest + children(g, id))[k] && (rest + children(g, id))[k]
                        < g.len() by {
                        if k < rest.len() {
                            assert(rest[k] == stack[k]);
                        } else {
                            assert((rest + children(g, id))[k] == children(g, id)[k - rest.len()]);
                        }
                    }
                }
                out.push(id);
                let listed = &lists[id as usize];
                assert(listed@ == children(g, id));
                let mut k: usize = 0;
                assert(pending@ =~= rest + listed@.take(0));
                while k < listed.len()
                    invariant
                        k <= listed@.len(),
                        pending@ == rest + listed@.take(k as int),
                    decreases listed@.len() - k,
                {
                    pending.push(listed[k]);
                    k += 1;
                    assert(pending@ =~= rest + listed@.take(k as int));
                }
                proof {
                    assert(listed@.take(listed@.len() as int) =~= listed@);
                    let shown = found;
                    let below = subtrees(g, children(g, id), -1);
                    let later = subtrees(g, rest, -1);
                    found = found.push(id);
                    assert(-1 < stack[stack.len() - 1] && stack[stack.len() - 1] < g.len());
                    assert(subtrees(g, stack, -1) == subtree(g, id) + later);
                    assert(subtree(g, id) == seq![id] + below);
                    assert(shown.push(id) + (below + later) =~= shown + ((seq![id] + below) + later));
                    assert(found + subtrees(g, rest + children(g, id), -1) =~= shown + subtrees(
                        g,
                        stack,
                        -1,
                    ));
                    assert(out@ =~= before + found);
                }
            },
        }
    }
}

/// An entry and everything below it; see [`subtree`]. Nothing is below an entry that is not there.
#[must_use]
pub fn descendants_of(graph: &FileGraph, root: EntryId) -> (r: Vec<EntryId>)
    requires
        graph.wf(),
    ensures
        raw_ids(r@) == subtree(graph@, root.0),
{
    proof {
        graph.lemma_wf();
    }
    if root.0 as usize >= graph.len() {
        let r: Vec<EntryId> = vec![root];
        assert(raw_ids(r@) =~= subtree(graph@, root.0));
        return r;
    }
    let lists = child_lists(graph);
    let mut ids: Vec<u32> = Vec::new();
    append_descendants(&lists, root.0, &mut ids, Ghost(graph@));
    assert(ids@ =~= subtree(graph@, root.0));
    crate::ranking::wrap_ids(&ids)
}

/// A subtree holds an entry and everything below it, and nothing else.
pub proof fn a_subtree_holds_what_lies_below(g: Seq<EntryView>, id: u32)
    requires
        is_forest(g),
        id < g.len(),
    ensures
        forall|j: u32| #[trigger]
            subtree(g, id).contains(j) <==> j < g.len() && within(g, j as int, id as int),
    decreases g.len() - id, 0nat,
{
    let ids = children(g, id);
    let rest = subtrees(g, ids, id as int);
    lemma_children_follow(g, id);
    let hangs = |i: int| g[i].parent == Some(id);
    select_picks(g.len(), hangs);
    lemma_subtrees_members(g, ids, id as int);
    let whole = subtree(g, id);
    assert(whole == seq![id] + rest);
    assert forall|j: u32| #[trigger] whole.contains(j) <==> j < g.len() && within(
        g,
        j as int,
        id as int,
    ) by {
        if whole.contains(j) {
            let k = choose|k: int| 0 <= k < whole.len() && whole[k] == j;
            if k > 0 {
                assert(rest[k - 1] == j);
                assert(rest.contains(j));
                let m = choose|m: int| 0 <= m < ids.len() && (#[trigger] ids[m]) < g.len() && within(
                    g,
                    j as int,
                    ids[m] as int,
                );
                assert(hangs(ids[m] as int));
                lemma_one_step_below(g, j as int, id as int, ids[m] as int);
            }
        }
        if j < g.len() && within(g, j as int, id as int) {
            if j == id {
                assert(whole[0] == j);
            } else {
                lemma_step_below_hangs(g, j as int, id as int);
                let c = step_below(g, j as int, id as int);
                lemma_one_step_below(g, j as int, id as int, c);
                assert(hangs(c));
                assert(ids.contains(c as u32));
                let m = choose|m: int| 0 <= m < ids.len() && ids[m] == c as u32;
                assert(within(g, j as int, ids[m] as int));
                assert(rest.contains(j));
                let k = choose|k: int| 0 <= k < rest.len() && rest[k] == j;
                assert(whole[k + 1] == j);
            }
        }
    }
}

proof fn lemma_subtrees_members(g: Seq<EntryView>, ids: Seq<u32>, above: int)
    requires
        is_forest(g),
        follow(g, ids, above),
        above >= 0,
    ensures
        forall|j: u32| #[trigger]
            subtrees(g, ids, above).contains(j) <==> j < g.len() && exists|m: int|
                0 <= m < ids.len() && (#[trigger] ids[m]) < g.len() && within(
                    g,
                    j as int,
                    ids[m] as int,
                ),
    decreases g.len() - above - 1, ids.len() + 1,
{
    if ids.len() > 0 {
        let shorter = ids.drop_last();
        let last = ids.last();
        assert(last == ids[ids.len() - 1]);
        assert forall|k: int| 0 <= k < shorter.len() implies above < #[trigger] shorter[k] && shorter[k]
            < g.len() by {
            assert(shorter[k] == ids[k]);
        }
        a_subtree_holds_what_lies_below(g, last);
        lemma_subtrees_members(g, shorter, above);
        let first = subtree(g, last);
        let rest = subtrees(g, shorter, above);
        let whole = subtrees(g, ids, above);
        assert(whole == first + rest);
        assert forall|j: u32| #[trigger] whole.contains(j) <==> j < g.len() && exists|m: int|
            0 <= m < ids.len() && (#[trigger] ids[m]) < g.len() && within(
                g,
                j as int,
                ids[m] as int,
            ) by {
            if whole.contains(j) {
                let k = choose|k: int| 0 <= k < whole.len() && whole[k] == j;
                if k < first.len() {
                    assert(first[k] == j);
                    assert(first.contains(j));
                    assert(ids[ids.len() - 1] == last);
                } else {
                    assert(rest[k - first.len()] == j);
                    assert(rest.contains(j));
                    let m = choose|m: int|
                        0 <= m < shorter.len() && (#[trigger] shorter[m]) < g.len() && within(
                            g,
                            j as int,
                            shorter[m] as int,
                        );
                    assert(ids[m] == shorter[m]);
                }
            }
            if j < g.len() && exists|m: int|
                0 <= m < ids.len() && (#[trigger] ids[m]) < g.len() && within(
                    g,
                    j as int,
                    ids[m] as int,
                ) {
                let m = choose|m: int|
                    0 <= m < ids.len() && (#[trigger] ids[m]) < g.len() && within(
                        g,
                        j as int,
                        ids[m] as int,
                    );
                if m == ids.len() - 1 {
                    assert(first.contains(j));
                    let k = choose|k: int| 0 <= k < first.len() && first[k] == j;
                    assert(whole[k] == j);
                } else {
                    assert(shorter[m] == ids[m]);
                    assert(rest.contains(j));
                    let k = choose|k: int| 0 <= k < rest.len() && rest[k] == j;
                    assert(whole[first.len() + k] == j);
                }
            }
        }
    } else {
        assert forall|j: u32| !(#[trigger] subtrees(g, ids, above).contains(j)) by {}
    }
}

/// The entries that can be shown: everything below the roots where the search is deep, else what is
/// right below them.
pub open spec fn reachable(g: Seq<EntryView>, roots: Seq<u32>, deep: bool) -> Seq<u32>
    decreases roots.len(),
{
    if roots.len() == 0 {
        Seq::empty()
    } else {
        reachable(g, roots.drop_last(), deep) + if deep {
            subtree(g, roots.last())
        } else {
            children(g, roots.last())
        }
    }
}

/// The entries that are asked for: of what can be shown, what passes the filter, without roots.
pub open spec fn asked_for(g: Seq<EntryView>, ids: Seq<u32>, filter: QueryFilter) -> Seq<u32>
    decreases ids.len(),
{
    if ids.len() == 0 {
        Seq::empty()
    } else if ids.last() < g.len() && g[ids.last() as int].parent is Some && passes(
        filter,
        g,
        ids.last() as int,
    ) {
        asked_for(g, ids.drop_last(), filter).push(ids.last())
    } else {
        asked_for(g, ids.drop_last(), filter)
    }
}

/// Whether an entry hangs on another.
#[must_use]
pub fn entry_has_parent(graph: &FileGraph, id: EntryId) -> (r: bool)
    requires
        graph.wf(),
    ensures
        r == (id.0 < graph@.len() && graph@[id.0 as int].parent is Some),
{
    match graph.entry(id) {
        Some(entry) => entry.parent.is_some(),
        None => false,
    }
}

fn reachable_ids(graph: &FileGraph, roots: &Vec<EntryId>, deep: bool) -> (r: Vec<u32>)
    requires
        graph.wf(),
        all_entries(graph@, raw_ids(roots@)),
    ensures
        r@ == reachable(graph@, raw_ids(roots@), deep),
{
    let ghost g = graph@;
    let ghost ids = raw_ids(roots@);
    proof {
        graph.lemma_wf();
    }
    let lists = child_lists(graph);
    let mut r: Vec<u32> = Vec::new();
    let mut i: usize = 0;
    assert(r@ =~= reachable(g, ids.take(0), deep));
    while i < roots.len()
        invariant
            graph.wf(),
            g == graph@,
            is_forest(g),
            ids == raw_ids(roots@),
            all_entries(g, ids),
            lists@.len() == g.len(),
            forall|q: int| 0 <= q < g.len() ==> (#[trigger] lists@[q])@ == children(g, q as u32),
            i <= roots@.len(),
            r@ == reachable(g, ids.take(i as int), deep),
        decreases roots@.len() - i,
    {
        let root = roots[i].0;
        assert(ids[i as int] == root);
        let ghost shown = r@;
        if deep {
            append_descendants(&lists, root, &mut r, Ghost(g));
        } else {
            let listed = &lists[root as usize];
            let mut k: usize = 0;
            assert(r@ =~= shown + listed@.take(0));
            while k < listed.len()
                invariant
                    k <= listed@.len(),
                    r@ == shown + listed@.take(k as int),
                decreases listed@.len() - k,
            {
                r.push(listed[k]);
                k += 1;
                assert(r@ =~= shown + listed@.take(k as int));
            }
            assert(listed@.take(listed@.len() as int) =~= listed@);
            assert(listed@ == children(g, root));
        }
        i += 1;
        proof {
            assert(ids.take(i as int).drop_last() =~= ids.take(i - 1));
            assert(ids.take(i as int).last() == root);
        }
    }
    assert(ids.take(ids.len() as int) =~= ids);
    r
}

/// Whether a command looks at all that lies below what is shown.
pub open spec fn looks_deep(command: ScanCommand) -> bool {
    command.deep || has_filters(command)
}

/// Whether these are the entries that a scan reports of what lies below these roots, the largest
/// first: at most `limit`.
pub open spec fn is_listed(
    g: Seq<EntryView>,
    roots: Seq<u32>,
    deep: bool,
    filter: QueryFilter,
    limit: nat,
    ids: Seq<u32>,
) -> bool {
    is_top(
        g,
        OrderKey::TotalSize,
        asked_for(g, reachable(g, roots, deep), filter),
        limit as int,
        ids,
    )
}

/// The entries that a scan reports, the largest first: those right below what is shown, or all below
/// it where the command is deep or filters.
#[must_use]
pub fn ranked_entry_ids(
    graph: &FileGraph,
    filter: &CompiledFilter,
    command: &ScanCommand,
    display_root: Option<&str>,
) -> (r: Vec<EntryId>)
    requires
        graph.wf(),
    ensures
        is_top(
            graph@,
            OrderKey::TotalSize,
            asked_for(
                graph@,
                reachable(
                    graph@,
                    visible_roots(graph@, str_view(display_root)),
                    command.deep || has_filters(*command),
                ),
                filter@,
            ),
            command.limit as int,
            raw_ids(r@),
        ),
        is_listed(
            graph@,
            visible_roots(graph@, str_view(display_root)),
            looks_deep(*command),
            filter@,
            command.limit as nat,
            raw_ids(r@),
        ),
{
    let ghost g = graph@;
    proof {
        graph.lemma_wf();
        lemma_visible_roots(g, str_view(display_root));
    }
    let roots = visible_root_ids(graph, display_root);
    let deep = command.deep || command_has_filters(command);
    let ids = reachable_ids(graph, &roots, deep);
    let mut kept: Vec<EntryId> = Vec::new();
    let mut i: usize = 0;
    assert(raw_ids(kept@) =~= asked_for(g, ids@.take(0), filter@));
    while i < ids.len()
        invariant
            graph.wf(),
            g == graph@,
            i <= ids@.len(),
            raw_ids(kept@) == asked_for(g, ids@.take(i as int), filter@),
        decreases ids@.len() - i,
    {
        let ghost shown = kept@;
        let id = EntryId(ids[i]);
        if entry_has_parent(graph, id) && filter.matches(graph, id) {
            kept.push(id);
            assert(raw_ids(kept@) =~= raw_ids(shown).push(id.0));
        }
        i += 1;
        proof {
            assert(ids@.take(i as int).drop_last() =~= ids@.take(i - 1));
            assert(ids@.take(i as int).last() == id.0);
        }
    }
    assert(ids@.take(ids@.len() as int) =~= ids@);
    top_entries_by_total_size(graph, &kept, command.limit)
}

// ---------------------------------------------------------------------------------------------
// A scan as administrator, and what is seen of a scan
// ---------------------------------------------------------------------------------------------

/// The volume that a direct scan reads: the drive that the path lies on, or the path itself.
#[must_use]
pub fn direct_scan_volume(path: &str, resolved: &str) -> (r: String)
    ensures
        r@ == match drive_for_path_spec(resolved@) {
            Some(drive) => drive,
            None => path@,
        },
{
    match drive_for_path(resolved) {
        Some(drive) => drive,
        None => path.to_owned(),
    }
}

/// The name of the file that a scan as administrator writes to.
#[must_use]
pub fn elevated_output_name(process: u32, millis: u128) -> (r: String)
    ensures
        r@ == "diskloom-elevated-"@ + decimal(process as nat) + "-"@ + decimal(millis as nat) + ".txt"@,
{
    let mut r = "diskloom-elevated-".to_owned();
    push_decimal(&mut r, process as u128);
    push_text(&mut r, "-");
    push_decimal(&mut r, millis);
    push_text(&mut r, ".txt");
    r
}

/// The arguments of a scan as administrator: those of this one, and where to write to.
#[must_use]
pub fn elevated_arguments(args: Vec<String>, output_path: &str) -> (r: Vec<String>)
    ensures
        strings_view(r@) == strings_view(args@).push("--elevated-output"@).push(output_path@),
{
    let mut r = args;
    r.push("--elevated-output".to_owned());
    r.push(output_path.to_owned());
    assert(strings_view(r@) =~= strings_view(args@).push("--elevated-output"@).push(output_path@));
    r
}

/// What is said where a scan as administrator failed.
pub fn elevated_outcome(exit_code: u32) -> (r: Result<(), String>)
    ensures
        match r {
            Ok(_) => exit_code == 0,
            Err(message) => exit_code != 0 && message@
                == "elevated DiskLoom scan failed with exit code "@ + decimal(exit_code as nat),
        },
{
    if exit_code == 0 {
        return Ok(());
    }
    let mut message = "elevated DiskLoom scan failed with exit code ".to_owned();
    push_decimal(&mut message, exit_code as u128);
    Err(message)
}

/// The sign that turns while a scan goes on.
pub open spec fn turning(frame: nat) -> char {
    let n = frame % 4;
    if n == 0 {
        '|'
    } else if n == 1 {
        '/'
    } else if n == 2 {
        '-'
    } else {
        '\\'
    }
}

/// The line that is shown while a scan goes on: what is done, and for how long.
#[must_use]
pub fn spinner_line(frame: usize, label: &str, elapsed: &str) -> (r: String)
    ensures
        r@ == "\r"@.push(turning(frame as nat)) + " "@ + label@ + " ("@ + elapsed@ + ")"@,
{
    let n = frame % 4;
    let sign = if n == 0 {
        '|'
    } else if n == 1 {
        '/'
    } else if n == 2 {
        '-'
    } else {
        '\\'
    };
    let mut r = "\r".to_owned();
    r.push(sign);
    push_text(&mut r, " ");
    push_text(&mut r, label);
    push_text(&mut r, " (");
    push_text(&mut r, elapsed);
    push_text(&mut r, ")");
    r
}

// ---------------------------------------------------------------------------------------------
// Laws
// ---------------------------------------------------------------------------------------------

/// A command that asks for no filter gets every entry.
pub proof fn a_command_without_filters_gets_everything(
    filter: QueryFilter,
    command: ScanCommand,
    g: Seq<EntryView>,
    i: int,
)
    requires
        !has_filters(command),
        filters_as(filter, command),
        is_matcher_of(filter.name, text_view(command.name), command.regex),
        is_matcher_of(filter.path, text_view(command.path_filter), command.regex),
        0 <= i < g.len(),
    ensures
        passes(filter, g, i),
{
}

/// What passes the filter of a command keeps to every bound of the command: sizes are those with all
/// that lies below, times are the entry's own, and files alone are no directories. A bound that the
/// command does not give keeps no entry out.
pub proof fn what_passes_keeps_to_the_command(
    filter: QueryFilter,
    command: ScanCommand,
    g: Seq<EntryView>,
    i: int,
)
    requires
        filters_as(filter, command),
        filter.name is None,
        filter.path is None,
        filter.extension is None,
        0 <= i < g.len(),
    ensures
        ({
            let size = subtree_sum(g, i, |j: int| g[j].size as nat, g.len() as int);
            let room = subtree_sum(g, i, |j: int| g[j].allocated as nat, g.len() as int);
            passes(filter, g, i) <==> {
                &&& command.min_size matches Some(n) ==> size >= n
                &&& command.max_size matches Some(n) ==> size <= n || n == u64::MAX
                &&& command.min_allocated matches Some(n) ==> room >= n
                &&& command.max_allocated matches Some(n) ==> room <= n || n == u64::MAX
                &&& command.modified_after matches Some(t) ==> g[i].modified >= t
                &&& command.modified_before matches Some(t) ==> g[i].modified <= t
                &&& command.files_only ==> g[i].flags % 2 == 0
            }
        }),
{
    the_first_mark_makes_a_directory(g[i].flags);
}

/// What can be shown below some roots: without depth the entries that hang on one of them, with depth
/// the roots and all that lies below them.
pub proof fn what_can_be_shown_lies_below(g: Seq<EntryView>, roots: Seq<u32>, deep: bool, i: u32)
    requires
        is_forest(g),
        g.len() <= u32::MAX + 1,
        all_entries(g, roots),
    ensures
        reachable(g, roots, deep).contains(i) <==> i < g.len() && exists|k: int|
            0 <= k < roots.len() && if deep {
                within(g, i as int, #[trigger] roots[k] as int)
            } else {
                g[i as int].parent == Some(roots[k])
            },
    decreases roots.len(),
{
    if roots.len() > 0 {
        let shorter = roots.drop_last();
        let last = roots[roots.len() - 1];
        let before = reachable(g, shorter, deep);
        let added = if deep {
            subtree(g, last)
        } else {
            children(g, last)
        };
        assert forall|k: int| 0 <= k < shorter.len() implies (#[trigger] shorter[k]) < g.len() by {
            assert(roots[k] < g.len());
        }
        what_can_be_shown_lies_below(g, shorter, deep, i);
        let whole = reachable(g, roots, deep);
        assert(whole == before + added);
        assert(whole.contains(i) <==> before.contains(i) || added.contains(i)) by {
            if whole.contains(i) {
                let k = choose|k: int| 0 <= k < whole.len() && whole[k] == i;
                if k < before.len() {
                    assert(before[k] == i);
                } else {
                    assert(added[k - before.len()] == i);
                }
            }
            if before.contains(i) {
                let k = choose|k: int| 0 <= k < before.len() && before[k] == i;
                assert(whole[k] == i);
            }
            if added.contains(i) {
                let k = choose|k: int| 0 <= k < added.len() && added[k] == i;
                assert(whole[before.len() + k] == i);
            }
        }
        if deep {
            a_subtree_holds_what_lies_below(g, last);
        } else {
            lemma_children_members(g, last, i);
        }
        if i < g.len() {
            assert forall|k: int| 0 <= k < shorter.len() implies shorter[k] == #[trigger] roots[k] by {}
            if exists|k: int|
                0 <= k < shorter.len() && if deep {
                    within(g, i as int, #[trigger] shorter[k] as int)
                } else {
                    g[i as int].parent == Some(shorter[k])
                } {
                let k = choose|k: int|
                    0 <= k < shorter.len() && if deep {
                        within(g, i as int, #[trigger] shorter[k] as int)
                    } else {
                        g[i as int].parent == Some(shorter[k])
                    };
                assert(roots[k] == shorter[k]);
            }
        }
    }
}

proof fn lemma_children_members(g: Seq<EntryView>, p: u32, i: u32)
    requires
        g.len() <= u32::MAX + 1,
    ensures
        children(g, p).contains(i) <==> i < g.len() && g[i as int].parent == Some(p),
{
    let hangs = |i: int| g[i].parent == Some(p);
    let ids = children(g, p);
    select_picks(g.len(), hangs);
    if ids.contains(i) {
        let k = choose|k: int| 0 <= k < ids.len() && ids[k] == i;
        assert(hangs(ids[k] as int));
    }
    if i < g.len() && g[i as int].parent == Some(p) {
        assert(hangs(i as int));
    }
}

/// What is asked for is, of what can be shown, what passes the filter and hangs on another entry.
pub proof fn what_is_asked_for_passes(g: Seq<EntryView>, ids: Seq<u32>, filter: QueryFilter, i: u32)
    ensures
        asked_for(g, ids, filter).contains(i) <==> ids.contains(i) && i < g.len()
            && g[i as int].parent is Some && passes(filter, g, i as int),
        asked_for(g, ids, filter).len() <= ids.len(),
    decreases ids.len(),
{
    if ids.len() > 0 {
        let shorter = ids.drop_last();
        let last = ids[ids.len() - 1];
        what_is_asked_for_passes(g, shorter, filter, i);
        assert(ids.contains(i) <==> shorter.contains(i) || last == i) by {
            if ids.contains(i) {
                let k = choose|k: int| 0 <= k < ids.len() && ids[k] == i;
                if k < shorter.len() {
                    assert(shorter[k] == i);
                }
            }
            if shorter.contains(i) {
                let k = choose|k: int| 0 <= k < shorter.len() && shorter[k] == i;
                assert(ids[k] == i);
            }
        }
        let before = asked_for(g, shorter, filter);
        let after = asked_for(g, ids, filter);
        if after == before.push(last) {
            if after.contains(i) {
                let k = choose|k: int| 0 <= k < after.len() && after[k] == i;
                if k < before.len() {
                    assert(before[k] == i);
                }
            }
            if before.contains(i) {
                let k = choose|k: int| 0 <= k < before.len() && before[k] == i;
                assert(after[k] == i);
            }
            assert(after[before.len() as int] == last);
        }
    }
}

/// The entry at a path is the first whose path is that one to the eye; there is none where no path is.
pub proof fn the_first_entry_at_a_path_is_found(g: Seq<EntryView>, target: Seq<char>)
    requires
        g.len() <= u32::MAX + 1,
    ensures
        match entry_at_path(g, target) {
            Some(id) => {
                &&& id < g.len()
                &&& path_key(path_of(g, id as int)) == path_key(target)
                &&& forall|j: int|
                    0 <= j < id ==> path_key(#[trigger] path_of(g, j)) != path_key(target)
            },
            None => forall|j: int|
                0 <= j < g.len() ==> path_key(#[trigger] path_of(g, j)) != path_key(target),
        },
{
    lemma_place_of_path(g, target, 0);
}

proof fn lemma_place_of_path(g: Seq<EntryView>, target: Seq<char>, from: int)
    requires
        0 <= from <= g.len(),
    ensures
        from <= place_of_path(g, target, from) <= g.len(),
        place_of_path(g, target, from) < g.len() ==> path_key(
            path_of(g, place_of_path(g, target, from)),
        ) == path_key(target),
        forall|j: int|
            from <= j < place_of_path(g, target, from) ==> path_key(#[trigger] path_of(g, j))
                != path_key(target),
    decreases g.len() - from,
{
    if from < g.len() && path_key(path_of(g, from)) != path_key(target) {
        lemma_place_of_path(g, target, from + 1);
    }
}

/// Arguments that were completed begin with the name of the program and that of a command, keep every
/// argument that was given behind them, and are complete: to complete them again changes nothing.
pub proof fn completed_arguments_stay(args: Seq<Seq<char>>)
    requires
        args.len() > 0,
    ensures
        ({
            let all = normalized_args(args);
            &&& all.len() >= 2
            &&& all[0] == args[0]
            &&& words_before(Some(all[1])).len() == 0
            &&& all.len() >= args.len()
            &&& all.skip(all.len() - (args.len() - 1)) == args.skip(1)
            &&& normalized_args(all) == all
        }),
{
    let first = if args.len() > 1 {
        Some(args[1])
    } else {
        None
    };
    let words = words_before(first);
    let all = normalized_args(args);
    assert(all =~= seq![args[0]] + words + args.skip(1));
    assert(words_before(Some("scan"@)) =~= Seq::<Seq<char>>::empty());
    if words.len() == 0 {
        assert(args.len() > 1);
        assert(all[1] == args.skip(1)[0]);
    } else {
        assert(all[1] == words[0]);
    }
    assert(all.skip(all.len() - (args.len() - 1)) =~= args.skip(1));
    assert(normalized_args(all) =~= seq![all[0]] + all.skip(1));
    assert(normalized_args(all) =~= all);
}

/// A path without a command before it is scanned, and so is the current directory where nothing but
/// options is given, or nothing at all.
pub proof fn what_is_no_command_is_scanned(program: Seq<char>, word: Seq<char>, rest: Seq<Seq<char>>)
    requires
        word != "scan"@ && word != "ntfs-probe"@ && word != "volumes"@ && word != "--help"@ && word
            != "-h"@,
    ensures
        normalized_args(seq![program]) == seq![program, "scan"@, "."@],
        word.len() > 0 && word[0] == '-' ==> normalized_args(seq![program, word] + rest) == seq![
            program,
            "scan"@,
            "."@,
            word,
        ] + rest,
        word.len() == 0 || word[0] != '-' ==> normalized_args(seq![program, word] + rest) == seq![
            program,
            "scan"@,
            word,
        ] + rest,
{
    let args = seq![program, word] + rest;
    assert(normalized_args(seq![program]) =~= seq![program, "scan"@, "."@]);
    assert(args[1] == word);
    if word.len() > 0 && word[0] == '-' {
        assert(normalized_args(args) =~= seq![program, "scan"@, "."@, word] + rest);
    } else {
        assert(normalized_args(args) =~= seq![program, "scan"@, word] + rest);
    }
}

/// The sign turns with every frame, and is the same again after four.
pub proof fn the_sign_turns(frame: nat)
    ensures
        turning(frame + 4) == turning(frame),
        turning(frame + 1) != turning(frame),
        turning(frame + 2) != turning(frame),
        turning(frame + 3) != turning(frame),
{
}

/// A scan that was left to choose reads the volume exactly where it runs as administrator and that is
/// what it needs; a traversal never needs it. A path behind the letter of a drive needs it for any
/// other scan.
pub proof fn volumes_are_read_as_administrator(
    full: Seq<char>,
    capital: char,
    letter: char,
    rest: Seq<char>,
)
    requires
        is_capital_of(capital, letter),
    ensures
        step_of(ScannerMode::Auto, full, true) == ScanStep::ReadVolumeOrTraverse <==> needs_elevation(
            full,
            ScannerMode::Auto,
        ),
        step_of(ScannerMode::Auto, full, false) == ScanStep::Traverse,
        forall|elevated: bool| #[trigger]
            step_of(ScannerMode::Fallback, full, elevated) == ScanStep::Traverse,
        forall|elevated: bool| #[trigger]
            step_of(ScannerMode::Ntfs, full, elevated) == ScanStep::ReadVolume,
        !needs_elevation(full, ScannerMode::Fallback),
        needs_elevation(seq![letter, ':'] + rest, ScannerMode::Auto),
        needs_elevation(seq![letter, ':'] + rest, ScannerMode::Ntfs),
{
    a_drive_is_known_by_its_letter(capital, letter, rest, Seq::empty());
}

/// Whether an entry is one that a scan may report: it hangs on another, passes the filter, and hangs on
/// one of the roots, or lies at or below one where all that lies below is looked at.
pub open spec fn may_be_listed(
    g: Seq<EntryView>,
    roots: Seq<u32>,
    deep: bool,
    filter: QueryFilter,
    i: u32,
) -> bool {
    &&& i < g.len()
    &&& g[i as int].parent is Some
    &&& passes(filter, g, i as int)
    &&& exists|k: int|
        0 <= k < roots.len() && if deep {
            within(g, i as int, #[trigger] roots[k] as int)
        } else {
            g[i as int].parent == Some(roots[k])
        }
}

/// A scan reports entries that may be reported and no others, no more than were asked for; their sizes
/// with all that lies below them never grow down the list. One that could be reported and is not is no
/// larger than any that is, and is left out only where the list is full.
pub proof fn a_scan_reports_the_largest(
    g: Seq<EntryView>,
    roots: Seq<u32>,
    deep: bool,
    filter: QueryFilter,
    limit: nat,
    ids: Seq<u32>,
)
    requires
        is_forest(g),
        all_entries(g, roots),
        is_listed(g, roots, deep, filter, limit, ids),
    ensures
        ids.len() <= limit,
        forall|k: int| 0 <= k < ids.len() ==> may_be_listed(g, roots, deep, filter, #[trigger] ids[k]),
        forall|j: int, k: int| #![trigger ids[j], ids[k]]
            0 <= j < k < ids.len() ==> size_that_counts(g, ids[j] as int, false) >= size_that_counts(
                g,
                ids[k] as int,
                false,
            ),
        forall|i: u32|
            #![trigger may_be_listed(g, roots, deep, filter, i)]
            may_be_listed(g, roots, deep, filter, i) && !ids.contains(i) ==> ids.len() == limit
                && forall|k: int|
                0 <= k < ids.len() ==> size_that_counts(g, #[trigger] ids[k] as int, false)
                    >= size_that_counts(g, i as int, false),
{
    let shown = reachable(g, roots, deep);
    let all = asked_for(g, shown, filter);
    assert forall|i: u32| #[trigger] all.contains(i) <==> may_be_listed(g, roots, deep, filter, i) by {
        what_can_be_shown_lies_below(g, roots, deep, i);
        what_is_asked_for_passes(g, shown, filter, i);
    }
    the_top_is_picked(g, OrderKey::TotalSize, all, limit as int, ids);
    nothing_larger_is_left_out(g, all, limit as int, ids, false);
    assert forall|k: int| 0 <= k < ids.len() implies may_be_listed(
        g,
        roots,
        deep,
        filter,
        #[trigger] ids[k],
    ) by {
        assert(all.contains(ids[k]));
    }
    assert forall|i: u32|
        #![trigger may_be_listed(g, roots, deep, filter, i)]
        may_be_listed(g, roots, deep, filter, i) && !ids.contains(i) implies ids.len() == limit
        && forall|k: int|
        0 <= k < ids.len() ==> size_that_counts(g, #[trigger] ids[k] as int, false)
            >= size_that_counts(g, i as int, false) by {
        assert(all.contains(i));
        if ids.len() < limit {
            the_whole_is_its_own_top(g, OrderKey::TotalSize, all, limit as int, ids, i);
        }
    }
}

/// A scan looks no further than right below what is shown only where it keeps no entry out.
pub proof fn only_what_is_not_filtered_is_shallow(
    filter: QueryFilter,
    command: ScanCommand,
    g: Seq<EntryView>,
    i: int,
)
    requires
        filters_as(filter, command),
        is_matcher_of(filter.name, text_view(command.name), command.regex),
        is_matcher_of(filter.path, text_view(command.path_filter), command.regex),
        0 <= i < g.len(),
    ensures
        !looks_deep(command) ==> passes(filter, g, i),
        command.deep ==> looks_deep(command),
        !passes(filter, g, i) ==> looks_deep(command),
{
    if !has_filters(command) {
        a_command_without_filters_gets_everything(filter, command, g, i);
    }
}

} // verus!
