//! What is written of a scan and of the volumes.

use vstd::prelude::*;

use crate::candidates::{candidates_view, find_duplicate_candidates, lists_duplicates, CandidateView,
    DuplicateCandidate};
use crate::command::ScanCommand;
use crate::format::{a_count_keeps_its_digits, commas_stand_before_every_three_digits, format_count,
    format_size, grouped, padded, push_padded, size_text, without_commas};
use crate::graph::{capped, is_directory, is_forest, path_of, raw_ids, subtree_sum, total_allocated,
    total_size, EntryFlags, EntryId, EntryView, FileGraph};
use crate::numbers::{decimal, decimal_int, decimal_int_reads_back, decimal_int_text,
    decimal_reads_back, decimal_text, is_digit, spelled};
use crate::ranking::{all_in, is_top, nothing_larger_is_left_out, the_top_is_picked, OrderKey};
use crate::scan::ScanSummary;
use crate::select::sum_where;
use crate::stats::{file_type_stats, lists_types, types_view, FileTypeStat, TypeView};
use crate::targets::{str_view, text_view};
use crate::text::{eq_ignore_ascii_case, lower_all, push_text, trim_end_separators, trim_separators};
use crate::totals::{allocated_of_all, graph_accounted_allocated, graph_accounted_size,
    roots_account_for_every_allocation, roots_account_for_every_size, size_of_all};
use crate::tree::root_ids;
use crate::volume::{VolumeInfo, VolumeKind};

verus! {

/// A text filled up to a width, and a space.
pub open spec fn cell(text: Seq<char>, width: nat) -> Seq<char> {
    padded(text, width).push(' ')
}

fn push_cell(out: &mut String, text: &str, width: usize)
    ensures
        final(out)@ == old(out)@ + cell(text@, width as nat),
{
    push_padded(out, text, width);
    out.push(' ');
    assert(out@ =~= old(out)@ + cell(text@, width as nat));
}

/// A number of bytes as it is asked for.
pub open spec fn shown_size(bytes: nat, raw: bool) -> Seq<char> {
    if raw {
        decimal(bytes)
    } else {
        size_text(bytes)
    }
}

/// How many of `len` are written where at most `limit` are.
pub open spec fn at_most(len: nat, limit: nat) -> int {
    if limit < len {
        limit as int
    } else {
        len as int
    }
}

// ---------------------------------------------------------------------------------------------
// The largest entries
// ---------------------------------------------------------------------------------------------

/// The line of an entry; what is no entry has none.
pub open spec fn entry_line(g: Seq<EntryView>, i: u32, raw: bool) -> Seq<char> {
    if i < g.len() {
        cell(shown_size(total_size(g, i as int) as nat, raw), 12) + cell(
            shown_size(total_allocated(g, i as int) as nat, raw),
            12,
        ) + cell(
            if is_directory(g[i as int].flags) {
                "dir"@
            } else {
                "file"@
            },
            5,
        ) + path_of(g, i as int) + "\n"@
    } else {
        Seq::empty()
    }
}

/// The lines of entries.
pub open spec fn entry_lines(g: Seq<EntryView>, ids: Seq<u32>, raw: bool) -> Seq<char>
    decreases ids.len(),
{
    if ids.len() == 0 {
        Seq::empty()
    } else {
        entry_lines(g, ids.drop_last(), raw) + entry_line(g, ids.last(), raw)
    }
}

/// The list of the largest entries.
pub open spec fn top_entries_text(g: Seq<EntryView>, ids: Seq<u32>, limit: nat, raw: bool) -> Seq<char> {
    "Largest entries\n"@ + cell("Size"@, 12) + cell("Allocated"@, 12) + cell("Kind"@, 5) + "Path\n"@
        + entry_lines(g, ids.take(at_most(ids.len(), limit)), raw)
}

fn push_entry_line(out: &mut String, graph: &FileGraph, id: EntryId, raw: bool)
    requires
        graph.wf(),
    ensures
        final(out)@ == old(out)@ + entry_line(graph@, id.0, raw),
{
    match (graph.entry(id), graph.stats(id), graph.reconstruct_path(id)) {
        (Some(entry), Some(stats), Some(path)) => {
            let size = format_size(stats.total_size.bytes(), raw);
            let allocated = format_size(stats.total_allocated.bytes(), raw);
            push_cell(out, &size, 12);
            push_cell(out, &allocated, 12);
            push_cell(
                out,
                if entry.flags.contains(EntryFlags::DIRECTORY) {
                    "dir"
                } else {
                    "file"
                },
                5,
            );
            push_text(out, &path);
            push_text(out, "\n");
        },
        _ => {},
    }
    assert(out@ =~= old(out)@ + entry_line(graph@, id.0, raw));
}

/// Writes the list of the largest entries: the first `limit` of these.
pub fn write_top_entries(
    out: &mut String,
    graph: &FileGraph,
    ids: &Vec<EntryId>,
    limit: usize,
    raw: bool,
)
    requires
        graph.wf(),
    ensures
        final(out)@ == old(out)@ + top_entries_text(graph@, raw_ids(ids@), limit as nat, raw),
{
    let ghost before = out@;
    let ghost g = graph@;
    let ghost all = raw_ids(ids@);
    push_text(out, "Largest entries\n");
    push_cell(out, "Size", 12);
    push_cell(out, "Allocated", 12);
    push_cell(out, "Kind", 5);
    push_text(out, "Path\n");
    let ghost head = "Largest entries\n"@ + cell("Size"@, 12) + cell("Allocated"@, 12) + cell(
        "Kind"@,
        5,
    ) + "Path\n"@;
    assert(out@ =~= before + head);
    let mut k: usize = 0;
    assert(out@ =~= before + head + entry_lines(g, all.take(0), raw));
    while k < ids.len() && k < limit
        invariant
            graph.wf(),
            g == graph@,
            all == raw_ids(ids@),
            k <= ids@.len(),
            k <= limit,
            out@ == before + head + entry_lines(g, all.take(k as int), raw),
        decreases ids@.len() - k,
    {
        push_entry_line(out, graph, ids[k], raw);
        k += 1;
        proof {
            assert(all.take(k as int).drop_last() =~= all.take(k - 1));
            assert(all.take(k as int).last() == ids@[k - 1].0);
            assert(out@ =~= before + head + entry_lines(g, all.take(k as int), raw));
        }
    }
    assert(out@ =~= before + top_entries_text(g, all, limit as nat, raw));
}

// ---------------------------------------------------------------------------------------------
// Duplicates
// ---------------------------------------------------------------------------------------------

/// The lines of the paths of these entries.
pub open spec fn path_lines(g: Seq<EntryView>, ids: Seq<u32>) -> Seq<char>
    decreases ids.len(),
{
    if ids.len() == 0 {
        Seq::empty()
    } else {
        path_lines(g, ids.drop_last()) + "\t"@ + path_of(g, ids.last() as int) + "\n"@
    }
}

/// The lines of candidates: what they have in common, and their paths.
pub open spec fn candidate_lines(g: Seq<EntryView>, candidate: CandidateView, raw: bool) -> Seq<char> {
    cell(shown_size(candidate.key.size as nat, raw), 12) + cell(decimal(candidate.entries.len()), 7)
        + cell(decimal_int(candidate.key.modified as int), 12) + candidate.key.name + "\n"@
        + path_lines(g, candidate.entries)
}

/// The lines of all candidates.
pub open spec fn all_candidate_lines(g: Seq<EntryView>, candidates: Seq<CandidateView>, raw: bool) -> Seq<
    char,
>
    decreases candidates.len(),
{
    if candidates.len() == 0 {
        Seq::empty()
    } else {
        all_candidate_lines(g, candidates.drop_last(), raw) + candidate_lines(
            g,
            candidates.last(),
            raw,
        )
    }
}

/// The list of candidates.
pub open spec fn duplicates_text(
    g: Seq<EntryView>,
    candidates: Seq<CandidateView>,
    limit: nat,
    raw: bool,
) -> Seq<char> {
    "Duplicate candidates by size/name/date:\n"@ + cell("Size"@, 12) + cell("Entries"@, 7) + cell(
        "Modified"@,
        12,
    ) + "Name\n"@ + all_candidate_lines(g, candidates.take(at_most(candidates.len(), limit)), raw)
}

fn push_candidate(out: &mut String, graph: &FileGraph, candidate: &DuplicateCandidate, raw: bool)
    requires
        graph.wf(),
    ensures
        final(out)@ == old(out)@ + candidate_lines(graph@, candidate@, raw),
{
    let ghost before = out@;
    let ghost g = graph@;
    let ghost ids = candidate@.entries;
    assert(ids.len() == candidate.entries@.len());
    let size = format_size(candidate.size, raw);
    let count = decimal_text(candidate.entries.len() as u64);
    let modified = decimal_int_text(candidate.modified_unix);
    push_cell(out, &size, 12);
    push_cell(out, &count, 7);
    push_cell(out, &modified, 12);
    push_text(out, &candidate.name);
    push_text(out, "\n");
    let ghost head = cell(shown_size(candidate.size as nat, raw), 12) + cell(decimal(ids.len()), 7)
        + cell(decimal_int(candidate.modified_unix as int), 12) + candidate.name@ + "\n"@;
    assert(out@ =~= before + head);
    let mut k: usize = 0;
    assert(out@ =~= before + head + path_lines(g, ids.take(0)));
    while k < candidate.entries.len()
        invariant
            graph.wf(),
            g == graph@,
            ids == raw_ids(candidate.entries@),
            k <= candidate.entries@.len(),
            out@ == before + head + path_lines(g, ids.take(k as int)),
        decreases candidate.entries@.len() - k,
    {
        let ghost shown = out@;
        push_text(out, "\t");
        if let Some(path) = graph.reconstruct_path(candidate.entries[k]) {
            push_text(out, &path);
        }
        push_text(out, "\n");
        k += 1;
        proof {
            let i = ids[k - 1];
            assert(ids.take(k as int).drop_last() =~= ids.take(k - 1));
            assert(ids.take(k as int).last() == i);
            assert(i == candidate.entries@[k - 1].0);
            assert(i >= g.len() ==> path_of(g, i as int) =~= Seq::<char>::empty());
            assert(out@ =~= shown + "\t"@ + path_of(g, i as int) + "\n"@);
            assert(out@ =~= before + head + path_lines(g, ids.take(k as int)));
        }
    }
    assert(ids.take(ids.len() as int) =~= ids);
    assert(out@ =~= before + candidate_lines(g, candidate@, raw));
}

/// Writes the list of candidates: the first `limit` of these.
pub fn write_candidates(
    out: &mut String,
    graph: &FileGraph,
    candidates: &Vec<DuplicateCandidate>,
    limit: usize,
    raw: bool,
)
    requires
        graph.wf(),
    ensures
        final(out)@ == old(out)@ + duplicates_text(
            graph@,
            candidates_view(candidates@),
            limit as nat,
            raw,
        ),
{
    let ghost before = out@;
    let ghost g = graph@;
    let ghost all = candidates_view(candidates@);
    push_text(out, "Duplicate candidates by size/name/date:\n");
    push_cell(out, "Size", 12);
    push_cell(out, "Entries", 7);
    push_cell(out, "Modified", 12);
    push_text(out, "Name\n");
    let ghost head = "Duplicate candidates by size/name/date:\n"@ + cell("Size"@, 12) + cell(
        "Entries"@,
        7,
    ) + cell("Modified"@, 12) + "Name\n"@;
    assert(out@ =~= before + head);
    let mut k: usize = 0;
    assert(out@ =~= before + head + all_candidate_lines(g, all.take(0), raw));
    while k < candidates.len() && k < limit
        invariant
            graph.wf(),
            g == graph@,
            all == candidates_view(candidates@),
            k <= candidates@.len(),
            k <= limit,
            out@ == before + head + all_candidate_lines(g, all.take(k as int), raw),
        decreases candidates@.len() - k,
    {
        push_candidate(out, graph, &candidates[k], raw);
        k += 1;
        proof {
            assert(all.take(k as int).drop_last() =~= all.take(k - 1));
            assert(all.take(k as int).last() == candidates@[k - 1]@);
            assert(out@ =~= before + head + all_candidate_lines(g, all.take(k as int), raw));
        }
    }
    assert(out@ =~= before + duplicates_text(g, all, limit as nat, raw));
}

/// Writes the list of files that may hold the same.
pub fn write_duplicate_candidates(out: &mut String, graph: &FileGraph, limit: usize, raw: bool)
    requires
        graph.wf(),
    ensures
        exists|candidates: Seq<CandidateView>| #[trigger]
            lists_duplicates(graph@, candidates) && final(out)@ == old(out)@ + duplicates_text(
                graph@,
                candidates,
                limit as nat,
                raw,
            ),
{
    let candidates = find_duplicate_candidates(graph);
    assert(lists_duplicates(graph@, candidates_view(candidates@)));
    write_candidates(out, graph, &candidates, limit, raw);
}

// ---------------------------------------------------------------------------------------------
// File types
// ---------------------------------------------------------------------------------------------

/// The lines of file types.
pub open spec fn type_lines(types: Seq<TypeView>, raw: bool) -> Seq<char>
    decreases types.len(),
{
    if types.len() == 0 {
        Seq::empty()
    } else {
        let stat = types.last();
        type_lines(types.drop_last(), raw) + cell(shown_size(stat.size as nat, raw), 12) + cell(
            shown_size(stat.allocated as nat, raw),
            12,
        ) + cell(grouped(stat.files as nat), 8) + stat.extension + "\n"@
    }
}

/// The list of file types.
pub open spec fn types_text(types: Seq<TypeView>, raw: bool) -> Seq<char> {
    "File types by size:\n"@ + cell("Size"@, 12) + cell("Allocated"@, 12) + cell("Files"@, 8)
        + "Extension\n"@ + type_lines(types, raw)
}

/// Writes the list of file types.
pub fn write_file_type_stats(out: &mut String, stats: &Vec<FileTypeStat>, raw: bool)
    ensures
        final(out)@ == old(out)@ + types_text(types_view(stats@), raw),
{
    let ghost before = out@;
    let ghost all = types_view(stats@);
    push_text(out, "File types by size:\n");
    push_cell(out, "Size", 12);
    push_cell(out, "Allocated", 12);
    push_cell(out, "Files", 8);
    push_text(out, "Extension\n");
    let ghost head = "File types by size:\n"@ + cell("Size"@, 12) + cell("Allocated"@, 12) + cell(
        "Files"@,
        8,
    ) + "Extension\n"@;
    assert(out@ =~= before + head);
    let mut k: usize = 0;
    assert(out@ =~= before + head + type_lines(all.take(0), raw));
    while k < stats.len()
        invariant
            all == types_view(stats@),
            k <= stats@.len(),
            out@ == before + head + type_lines(all.take(k as int), raw),
        decreases stats@.len() - k,
    {
        let stat = &stats[k];
        let size = format_size(stat.size, raw);
        let allocated = format_size(stat.allocated, raw);
        let files = format_count(stat.files);
        push_cell(out, &size, 12);
        push_cell(out, &allocated, 12);
        push_cell(out, &files, 8);
        push_text(out, &stat.extension);
        push_text(out, "\n");
        k += 1;
        proof {
            assert(all.take(k as int).drop_last() =~= all.take(k - 1));
            assert(all.take(k as int).last() == stats@[k - 1]@);
            assert(out@ =~= before + head + type_lines(all.take(k as int), raw));
        }
    }
    assert(all.take(all.len() as int) =~= all);
    assert(out@ =~= before + types_text(all, raw));
}

// ---------------------------------------------------------------------------------------------
// The summary
// ---------------------------------------------------------------------------------------------

/// How full a volume is, and how much of it a scan accounts for.
#[derive(Debug, Clone, Copy, PartialEq, Eq, Structural)]
pub struct VolumeUsage {
    pub used: u64,
    pub total: u64,
    pub accounted_allocated: u64,
}

/// `a - b`, or nothing where `b` is larger.
pub open spec fn less(a: u64, b: u64) -> u64 {
    if a > b {
        (a - b) as u64
    } else {
        0
    }
}

fn saturating_less(a: u64, b: u64) -> (r: u64)
    ensures
        r == less(a, b),
{
    if a > b {
        a - b
    } else {
        0
    }
}

/// Where the first volume from `from` on stands with this root, whatever the case of ASCII letters,
/// or how many there are.
pub open spec fn place_of_volume(volumes: Seq<VolumeInfo>, root: Seq<char>, from: int) -> int
    decreases volumes.len() - from,
{
    if from < 0 || from >= volumes.len() || lower_all(volumes[from].root@) == lower_all(root) {
        from
    } else {
        place_of_volume(volumes, root, from + 1)
    }
}

/// How full the volume is, where the system says how large it is and how much of it is free.
pub open spec fn usage_of(volumes: Seq<VolumeInfo>, volume: Seq<char>, accounted: u64) -> Option<
    VolumeUsage,
> {
    let i = place_of_volume(volumes, trim_separators(volume).push('\\'), 0);
    if 0 <= i < volumes.len() {
        match (volumes[i].total_bytes, volumes[i].free_bytes) {
            (Some(total), Some(free)) => Some(
                VolumeUsage { used: less(total, free), total, accounted_allocated: accounted },
            ),
            _ => None,
        }
    } else {
        None
    }
}

/// How full the volume is that a direct scan read.
#[must_use]
pub fn volume_usage_for_direct_scan(volume: &str, volumes: &Vec<VolumeInfo>, graph: &FileGraph) -> (r:
    Option<VolumeUsage>)
    requires
        graph.wf(),
    ensures
        r == usage_of(volumes@, volume@, allocated_of_all(graph@, root_ids(graph@))),
{
    let mut root = trim_end_separators(volume);
    root.push('\\');
    let mut i: usize = 0;
    while i < volumes.len() && !eq_ignore_ascii_case(&volumes[i].root, &root)
        invariant
            i <= volumes@.len(),
            root@ == trim_separators(volume@).push('\\'),
            place_of_volume(volumes@, root@, 0) == place_of_volume(volumes@, root@, i as int),
        decreases volumes@.len() - i,
    {
        i += 1;
    }
    if i == volumes.len() {
        return None;
    }
    match (volumes[i].total_bytes, volumes[i].free_bytes) {
        (Some(total), Some(free)) => Some(
            VolumeUsage {
                used: saturating_less(total, free),
                total,
                accounted_allocated: graph_accounted_allocated(graph),
            },
        ),
        _ => None,
    }
}

/// What is said of a volume: how full it is, and what the scan does not account for.
pub open spec fn usage_lines(usage: VolumeUsage) -> Seq<char> {
    let missing = less(usage.used, usage.accounted_allocated);
    cell("Volume"@, 12) + size_text(usage.used as nat) + " used of "@ + size_text(usage.total as nat)
        + " total\n"@ + if missing > 0 {
        cell("Unaccounted"@, 12) + size_text(missing as nat)
            + " used by NTFS metadata, shadow copies, alternate streams, or other space not attributed to visible files\n"@
    } else {
        Seq::empty()
    }
}

/// A line with a title.
pub open spec fn titled(title: Seq<char>, text: Seq<char>) -> Seq<char> {
    cell(title, 12) + text + "\n"@
}

fn push_titled(out: &mut String, title: &str, text: &str)
    ensures
        final(out)@ == old(out)@ + titled(title@, text@),
{
    push_cell(out, title, 12);
    push_text(out, text);
    push_text(out, "\n");
    assert(out@ =~= old(out)@ + titled(title@, text@));
}

/// What a scan found, in words.
pub open spec fn breakdown(summary: ScanSummary) -> Seq<char> {
    grouped(summary.files as nat) + " files, "@ + grouped(summary.directories as nat) + " folders, "@
        + grouped(summary.inaccessible as nat) + " inaccessible"@
}

/// What a scan found, in words, such as `2 files, 1 folders, 0 inaccessible`.
#[must_use]
pub fn summary_detail(summary: ScanSummary) -> (r: String)
    ensures
        r@ == breakdown(summary),
{
    let mut r = format_count(summary.files);
    push_text(&mut r, " files, ");
    let folders = format_count(summary.directories);
    push_text(&mut r, &folders);
    push_text(&mut r, " folders, ");
    let inaccessible = format_count(summary.inaccessible);
    push_text(&mut r, &inaccessible);
    push_text(&mut r, " inaccessible");
    r
}

/// How a scan went: how it was done, what it found, and why the volume was not read.
pub open spec fn completed(label: Seq<char>, reason: Option<Seq<char>>, summary: ScanSummary) -> Seq<char> {
    let detail = label + "; "@ + breakdown(summary);
    match reason {
        Some(text) => detail + "; NTFS fallback reason: "@ + text,
        None => detail,
    }
}

/// How a scan went; see [`completed`].
#[must_use]
pub fn scan_complete_detail(scanner_label: &str, fallback_reason: Option<&str>, summary: ScanSummary) -> (r:
    String)
    ensures
        r@ == completed(scanner_label@, str_view(fallback_reason), summary),
{
    let mut r = scanner_label.to_owned();
    push_text(&mut r, "; ");
    let detail = summary_detail(summary);
    push_text(&mut r, &detail);
    if let Some(reason) = fallback_reason {
        push_text(&mut r, "; NTFS fallback reason: ");
        push_text(&mut r, reason);
    }
    r
}

/// What the entries of a graph take, in words.
pub open spec fn accounted(g: Seq<EntryView>) -> Seq<char> {
    size_text(size_of_all(g, root_ids(g)) as nat) + " logical, "@ + size_text(
        allocated_of_all(g, root_ids(g)) as nat,
    ) + " allocated"@
}

fn accounted_text(graph: &FileGraph) -> (r: String)
    requires
        graph.wf(),
    ensures
        r@ == accounted(graph@),
{
    let mut r = format_size(graph_accounted_size(graph), false);
    push_text(&mut r, " logical, ");
    let allocated = format_size(graph_accounted_allocated(graph), false);
    push_text(&mut r, &allocated);
    push_text(&mut r, " allocated");
    r
}

/// What is said of a scan.
pub open spec fn summary_text(
    path: Seq<char>,
    scanner: Seq<char>,
    g: Seq<EntryView>,
    summary: ScanSummary,
    usage: Option<VolumeUsage>,
    elapsed: Seq<char>,
) -> Seq<char> {
    summary_names(path, scanner) + summary_counts(g, summary) + summary_tail(usage, elapsed)
}

/// What was scanned, and how.
pub open spec fn summary_names(path: Seq<char>, scanner: Seq<char>) -> Seq<char> {
    "DiskLoom scan\n"@ + titled("Path"@, path) + titled("Scanner"@, scanner)
}

/// What a scan found.
pub open spec fn summary_counts(g: Seq<EntryView>, summary: ScanSummary) -> Seq<char> {
    titled("Entries"@, grouped(summary.entries as nat)) + titled("Breakdown"@, breakdown(summary))
        + titled("Accounted"@, accounted(g))
}

/// How full the volume is, where that is known, and how long the scan took.
pub open spec fn summary_tail(usage: Option<VolumeUsage>, elapsed: Seq<char>) -> Seq<char> {
    (match usage {
        Some(u) => usage_lines(u),
        None => Seq::empty(),
    }) + titled("Elapsed"@, elapsed)
}

fn push_summary_names(out: &mut String, path: &str, scanner: &str)
    ensures
        final(out)@ == old(out)@ + summary_names(path@, scanner@),
{
    push_text(out, "DiskLoom scan\n");
    push_titled(out, "Path", path);
    push_titled(out, "Scanner", scanner);
    assert(out@ =~= old(out)@ + summary_names(path@, scanner@));
}

fn push_summary_counts(out: &mut String, graph: &FileGraph, summary: ScanSummary)
    requires
        graph.wf(),
    ensures
        final(out)@ == old(out)@ + summary_counts(graph@, summary),
{
    let entries = format_count(summary.entries);
    let found = summary_detail(summary);
    let taken = accounted_text(graph);
    push_titled(out, "Entries", &entries);
    push_titled(out, "Breakdown", &found);
    push_titled(out, "Accounted", &taken);
    assert(out@ =~= old(out)@ + summary_counts(graph@, summary));
}

fn push_summary_tail(out: &mut String, usage: Option<VolumeUsage>, elapsed: &str)
    ensures
        final(out)@ == old(out)@ + summary_tail(usage, elapsed@),
{
    if let Some(usage) = usage {
        push_usage(out, usage);
    }
    push_titled(out, "Elapsed", elapsed);
    assert(out@ =~= old(out)@ + summary_tail(usage, elapsed@));
}

fn push_usage(out: &mut String, usage: VolumeUsage)
    ensures
        final(out)@ == old(out)@ + usage_lines(usage),
{
    let missing = saturating_less(usage.used, usage.accounted_allocated);
    let used = format_size(usage.used, false);
    let total = format_size(usage.total, false);
    push_cell(out, "Volume", 12);
    push_text(out, &used);
    push_text(out, " used of ");
    push_text(out, &total);
    push_text(out, " total\n");
    if missing > 0 {
        let unaccounted = format_size(missing, false);
        push_cell(out, "Unaccounted", 12);
        push_text(out, &unaccounted);
        push_text(
            out,
            " used by NTFS metadata, shadow copies, alternate streams, or other space not attributed to visible files\n",
        );
    }
    assert(out@ =~= old(out)@ + usage_lines(usage));
}

/// Writes what is said of a scan that took so long.
pub fn write_scan_summary(
    out: &mut String,
    path: &str,
    scanner_label: &str,
    graph: &FileGraph,
    summary: ScanSummary,
    volume_usage: Option<VolumeUsage>,
    elapsed: &str,
)
    requires
        graph.wf(),
    ensures
        final(out)@ == old(out)@ + summary_text(
            path@,
            scanner_label@,
            graph@,
            summary,
            volume_usage,
            elapsed@,
        ),
{
    push_summary_names(out, path, scanner_label);
    push_summary_counts(out, graph, summary);
    push_summary_tail(out, volume_usage, elapsed);
    assert(out@ =~= old(out)@ + summary_text(
        path@,
        scanner_label@,
        graph@,
        summary,
        volume_usage,
        elapsed@,
    ));
}

/// What a scan found, and how it went.
pub struct ScanReport<'a> {
    pub path: &'a str,
    pub scanner_label: &'a str,
    pub graph: &'a FileGraph,
    pub summary: ScanSummary,
    pub volume_usage: Option<VolumeUsage>,
    pub fallback_reason: Option<String>,
    pub elapsed: &'a str,
}

/// What is written of a scan for a command, apart from the lists of duplicates and file types.
pub open spec fn report_head(report: ScanReport, ids: Seq<u32>, command: ScanCommand) -> Seq<char> {
    summary_text(
        report.path@,
        report.scanner_label@,
        report.graph@,
        report.summary,
        report.volume_usage,
        report.elapsed@,
    ) + reason_line(text_view(report.fallback_reason)) + top_part(report.graph@, ids, command)
}

/// Why the volume was not read, where it was not.
pub open spec fn reason_line(reason: Option<Seq<char>>) -> Seq<char> {
    match reason {
        Some(text) => "Fallback: "@ + text + "\n"@,
        None => Seq::empty(),
    }
}

fn push_reason(out: &mut String, reason: &Option<String>)
    ensures
        final(out)@ == old(out)@ + reason_line(text_view(*reason)),
{
    if let Some(text) = reason {
        push_text(out, "Fallback: ");
        push_text(out, text);
        push_text(out, "\n");
    }
    assert(out@ =~= old(out)@ + reason_line(text_view(*reason)));
}

/// The list of the largest entries, unless the command asks for no more than the summary.
pub open spec fn top_part(g: Seq<EntryView>, ids: Seq<u32>, command: ScanCommand) -> Seq<char> {
    if command.summary_only {
        Seq::empty()
    } else {
        "\n"@ + top_entries_text(g, ids, command.limit as nat, command.raw)
    }
}

fn push_top_part(out: &mut String, graph: &FileGraph, ids: &Vec<EntryId>, command: &ScanCommand)
    requires
        graph.wf(),
    ensures
        final(out)@ == old(out)@ + top_part(graph@, raw_ids(ids@), *command),
{
    if !command.summary_only {
        push_text(out, "\n");
        write_top_entries(out, graph, ids, command.limit, command.raw);
    }
    assert(out@ =~= old(out)@ + top_part(graph@, raw_ids(ids@), *command));
}

/// Whether this is the list of duplicates that a command asks for: nothing where it does not.
pub open spec fn is_duplicate_part(part: Seq<char>, g: Seq<EntryView>, command: ScanCommand) -> bool {
    if command.duplicates {
        exists|candidates: Seq<CandidateView>| #[trigger]
            lists_duplicates(g, candidates) && part == "\n"@ + duplicates_text(
                g,
                candidates,
                command.limit as nat,
                command.raw,
            )
    } else {
        part == Seq::<char>::empty()
    }
}

/// Whether this is the list of file types that a command asks for: nothing where it does not.
pub open spec fn is_type_part(part: Seq<char>, g: Seq<EntryView>, command: ScanCommand) -> bool {
    if command.file_types {
        exists|types: Seq<TypeView>| #[trigger]
            lists_types(g, types) && part == "\n"@ + types_text(
                types.take(at_most(types.len(), command.limit as nat)),
                command.raw,
            )
    } else {
        part == Seq::<char>::empty()
    }
}

fn push_duplicate_part(out: &mut String, graph: &FileGraph, command: &ScanCommand)
    requires
        graph.wf(),
    ensures
        exists|part: Seq<char>| #[trigger]
            is_duplicate_part(part, graph@, *command) && final(out)@ == old(out)@ + part,
{
    let ghost before = out@;
    if command.duplicates {
        push_text(out, "\n");
        let candidates = find_duplicate_candidates(graph);
        let ghost listed = candidates_view(candidates@);
        write_candidates(out, graph, &candidates, command.limit, command.raw);
        proof {
            let part = "\n"@ + duplicates_text(graph@, listed, command.limit as nat, command.raw);
            assert(lists_duplicates(graph@, listed));
            assert(out@ =~= before + part);
            assert(is_duplicate_part(part, graph@, *command));
        }
    } else {
        assert(out@ =~= before + Seq::<char>::empty());
        assert(is_duplicate_part(Seq::<char>::empty(), graph@, *command));
    }
}

fn push_type_part(out: &mut String, graph: &FileGraph, command: &ScanCommand)
    requires
        graph.wf(),
    ensures
        exists|part: Seq<char>| #[trigger]
            is_type_part(part, graph@, *command) && final(out)@ == old(out)@ + part,
{
    let ghost before = out@;
    if command.file_types {
        push_text(out, "\n");
        let stats = file_type_stats(graph, command.limit);
        write_file_type_stats(out, &stats, command.raw);
        proof {
            let limit = command.limit;
            let types = choose|types: Seq<TypeView>| #[trigger]
                lists_types(graph@, types) && types_view(stats@) == types.take(
                    if limit < types.len() {
                        limit as int
                    } else {
                        types.len() as int
                    },
                );
            let part = "\n"@ + types_text(types_view(stats@), command.raw);
            assert(lists_types(graph@, types));
            assert(out@ =~= before + part);
            assert(is_type_part(part, graph@, *command));
        }
    } else {
        assert(out@ =~= before + Seq::<char>::empty());
        assert(is_type_part(Seq::<char>::empty(), graph@, *command));
    }
}

/// Writes what a command asks for of a scan: what is said of the scan, why the volume was not read,
/// the largest entries, the duplicates and the file types.
pub fn write_report(out: &mut String, report: &ScanReport, ids: &Vec<EntryId>, command: &ScanCommand)
    requires
        report.graph.wf(),
    ensures
        exists|duplicates: Seq<char>, types: Seq<char>|
            {
                &&& #[trigger] is_duplicate_part(duplicates, report.graph@, *command)
                &&& #[trigger] is_type_part(types, report.graph@, *command)
                &&& final(out)@ == old(out)@ + report_head(*report, raw_ids(ids@), *command)
                    + duplicates + types
            },
{
    let ghost before = out@;
    write_scan_summary(
        out,
        report.path,
        report.scanner_label,
        report.graph,
        report.summary,
        report.volume_usage,
        report.elapsed,
    );
    push_reason(out, &report.fallback_reason);
    push_top_part(out, report.graph, ids, command);
    let ghost head = report_head(*report, raw_ids(ids@), *command);
    assert(out@ =~= before + head);
    push_duplicate_part(out, report.graph, command);
    push_type_part(out, report.graph, command);
}

// ---------------------------------------------------------------------------------------------
// Volumes
// ---------------------------------------------------------------------------------------------

/// The word for how a volume is formatted.
pub open spec fn kind_text(kind: VolumeKind) -> Seq<char> {
    match kind {
        VolumeKind::Ntfs => "NTFS"@,
        VolumeKind::Other(name) => name@,
        VolumeKind::Unknown => "unknown"@,
    }
}

/// What is known of a number, or nothing.
pub open spec fn known(n: Option<u64>) -> u64 {
    match n {
        Some(n) => n,
        None => 0,
    }
}

/// The line of a volume.
pub open spec fn volume_line(volume: VolumeInfo) -> Seq<char> {
    cell(volume.root@, 8) + cell(kind_text(volume.kind), 10) + cell(
        size_text(less(known(volume.total_bytes), known(volume.free_bytes)) as nat),
        12,
    ) + padded(
        match volume.total_bytes {
            Some(total) => size_text(total as nat),
            None => "-"@,
        },
        12,
    ) + "\n"@
}

/// The lines of volumes.
pub open spec fn volume_lines(volumes: Seq<VolumeInfo>) -> Seq<char>
    decreases volumes.len(),
{
    if volumes.len() == 0 {
        Seq::empty()
    } else {
        volume_lines(volumes.drop_last()) + volume_line(volumes.last())
    }
}

fn push_volume(out: &mut String, volume: &VolumeInfo)
    ensures
        final(out)@ == old(out)@ + volume_line(*volume),
{
    let total_known: u64 = match volume.total_bytes {
        Some(n) => n,
        None => 0,
    };
    let free_known: u64 = match volume.free_bytes {
        Some(n) => n,
        None => 0,
    };
    let used = format_size(saturating_less(total_known, free_known), false);
    let total = match volume.total_bytes {
        Some(n) => format_size(n, false),
        None => "-".to_owned(),
    };
    push_cell(out, &volume.root, 8);
    match &volume.kind {
        VolumeKind::Ntfs => push_cell(out, "NTFS", 10),
        VolumeKind::Other(name) => push_cell(out, name, 10),
        VolumeKind::Unknown => push_cell(out, "unknown", 10),
    }
    push_cell(out, &used, 12);
    push_padded(out, &total, 12);
    push_text(out, "\n");
    assert(out@ =~= old(out)@ + volume_line(*volume));
}

/// Writes the table of volumes.
pub fn write_volumes(out: &mut String, volumes: &Vec<VolumeInfo>)
    ensures
        final(out)@ == old(out)@ + cell("Drive"@, 8) + cell("Format"@, 10) + cell("Used"@, 12) + padded(
            "Total"@,
            12,
        ) + "\n"@ + volume_lines(volumes@),
{
    let ghost before = out@;
    push_cell(out, "Drive", 8);
    push_cell(out, "Format", 10);
    push_cell(out, "Used", 12);
    push_padded(out, "Total", 12);
    push_text(out, "\n");
    let ghost head = before + cell("Drive"@, 8) + cell("Format"@, 10) + cell("Used"@, 12) + padded(
        "Total"@,
        12,
    ) + "\n"@;
    assert(out@ =~= head);
    let mut k: usize = 0;
    assert(out@ =~= head + volume_lines(volumes@.take(0)));
    while k < volumes.len()
        invariant
            k <= volumes@.len(),
            out@ == head + volume_lines(volumes@.take(k as int)),
        decreases volumes@.len() - k,
    {
        push_volume(out, &volumes[k]);
        k += 1;
        proof {
            assert(volumes@.take(k as int).drop_last() =~= volumes@.take(k - 1));
            assert(out@ =~= head + volume_lines(volumes@.take(k as int)));
        }
    }
    assert(volumes@.take(volumes@.len() as int) =~= volumes@);
}

// ---------------------------------------------------------------------------------------------
// Laws of lines
// ---------------------------------------------------------------------------------------------

/// Where the first space of a text stands, or its length.
pub open spec fn word_end(text: Seq<char>) -> int
    decreases text.len(),
{
    if text.len() == 0 || text[0] == ' ' {
        0
    } else {
        1 + word_end(text.drop_first())
    }
}

/// The text up to its first space.
pub open spec fn first_word(text: Seq<char>) -> Seq<char> {
    text.take(word_end(text))
}

/// The text without the spaces at its head.
pub open spec fn without_spaces(text: Seq<char>) -> Seq<char>
    decreases text.len(),
{
    if text.len() > 0 && text[0] == ' ' {
        without_spaces(text.drop_first())
    } else {
        text
    }
}

/// What follows the first word and the spaces behind it.
pub open spec fn behind_word(text: Seq<char>) -> Seq<char> {
    without_spaces(text.skip(word_end(text)))
}

/// The sum of the sizes of an entry and all that lies below it, as far as it can be counted.
pub open spec fn size_below(g: Seq<EntryView>, i: int) -> nat {
    capped(subtree_sum(g, i, |j: int| g[j].size as nat, g.len() as int), u64::MAX as nat)
}

/// The sum of what an entry and all that lies below it take, as far as it can be counted.
pub open spec fn allocated_below(g: Seq<EntryView>, i: int) -> nat {
    capped(subtree_sum(g, i, |j: int| g[j].allocated as nat, g.len() as int), u64::MAX as nat)
}

proof fn lemma_word_end(word: Seq<char>, rest: Seq<char>)
    requires
        !word.contains(' '),
        rest.len() > 0,
        rest[0] == ' ',
    ensures
        word_end(word + rest) == word.len(),
    decreases word.len(),
{
    let text = word + rest;
    if word.len() == 0 {
        assert(text[0] == ' ');
    } else {
        let fewer = word.drop_first();
        assert forall|c: char| fewer.contains(c) implies word.contains(c) by {
            let i = choose|i: int| 0 <= i < fewer.len() && fewer[i] == c;
            assert(word[i + 1] == c);
        }
        lemma_word_end(fewer, rest);
        assert(text.drop_first() =~= fewer + rest);
        assert(word.contains(word[0]));
        assert(text[0] == word[0]);
    }
}

proof fn lemma_spaces_off(n: nat, rest: Seq<char>)
    requires
        rest.len() > 0,
        rest[0] != ' ',
    ensures
        without_spaces(Seq::new(n, |i: int| ' ') + rest) == rest,
    decreases n,
{
    let text = Seq::new(n, |i: int| ' ') + rest;
    if n == 0 {
        assert(text =~= rest);
    } else {
        lemma_spaces_off((n - 1) as nat, rest);
        assert(text.drop_first() =~= Seq::new((n - 1) as nat, |i: int| ' ') + rest);
    }
}

/// A cell with a word in it is read as that word, and what follows it as it is.
proof fn lemma_cell_reads(word: Seq<char>, width: nat, rest: Seq<char>)
    requires
        !word.contains(' '),
        rest.len() > 0,
        rest[0] != ' ',
    ensures
        first_word(cell(word, width) + rest) == word,
        behind_word(cell(word, width) + rest) == rest,
{
    let n = (if word.len() < width {
        width - word.len()
    } else {
        0
    } + 1) as nat;
    let gap = Seq::new(n, |i: int| ' ');
    let text = cell(word, width) + rest;
    assert(text =~= word + (gap + rest));
    lemma_word_end(word, gap + rest);
    assert(text.take(word.len() as int) =~= word);
    assert(text.skip(word.len() as int) =~= gap + rest);
    lemma_spaces_off(n, rest);
}

pub proof fn lemma_no_space(n: nat)
    ensures
        !decimal(n).contains(' '),
        decimal(n).len() > 0,
        decimal(n)[0] != ' ',
{
    decimal_reads_back(n);
    let text = decimal(n);
    assert forall|i: int| 0 <= i < text.len() implies #[trigger] text[i] != ' ' by {
        assert(is_digit(text[i]));
    }
}

/// A line of the list of the largest entries, with sizes as plain numbers, tells first the sum of the
/// sizes of the entry and all that lies below it, then the sum of what they take, then what it is, and
/// ends in its path.
pub proof fn a_line_tells_the_sums(g: Seq<EntryView>, i: u32)
    requires
        i < g.len(),
    ensures
        ({
            let line = entry_line(g, i, true);
            let path = path_of(g, i as int);
            &&& spelled(first_word(line), false) == Some(size_below(g, i as int) as int)
            &&& spelled(first_word(behind_word(line)), false) == Some(
                allocated_below(g, i as int) as int,
            )
            &&& first_word(behind_word(behind_word(line))) == if g[i as int].flags % 2 == 1 {
                seq!['d', 'i', 'r']
            } else {
                seq!['f', 'i', 'l', 'e']
            }
            &&& line.len() > path.len()
            &&& line.skip(line.len() - path.len() - 1) == path.push('\n')
        }),
{
    let line = entry_line(g, i, true);
    let path = path_of(g, i as int);
    let flags = g[i as int].flags;
    assert((flags & 1 == 1) == (flags % 2 == 1)) by (bit_vector);
    reveal_strlit("dir");
    reveal_strlit("file");
    reveal_strlit("\n");
    let size = decimal(total_size(g, i as int) as nat);
    let allocated = decimal(total_allocated(g, i as int) as nat);
    let kind = if is_directory(flags) {
        "dir"@
    } else {
        "file"@
    };
    assert(kind =~= if flags % 2 == 1 {
        seq!['d', 'i', 'r']
    } else {
        seq!['f', 'i', 'l', 'e']
    });
    let tail = cell(kind, 5) + path + "\n"@;
    assert(kind[0] != ' ');
    assert(tail[0] == kind[0]);
    let rest = cell(allocated, 12) + tail;
    lemma_no_space(total_size(g, i as int) as nat);
    lemma_no_space(total_allocated(g, i as int) as nat);
    assert(rest[0] == allocated[0]);
    assert(line =~= cell(size, 12) + rest);
    lemma_cell_reads(size, 12, rest);
    lemma_cell_reads(allocated, 12, tail);
    assert(word_end(tail) == kind.len()) by {
        let gap = Seq::new((5 - kind.len() + 1) as nat, |k: int| ' ');
        assert(tail =~= kind + (gap + path + "\n"@));
        assert forall|k: int| 0 <= k < kind.len() implies kind[k] != ' ' by {}
        lemma_word_end(kind, gap + path + "\n"@);
    }
    assert(tail.take(kind.len() as int) =~= kind);
    decimal_reads_back(total_size(g, i as int) as nat);
    decimal_reads_back(total_allocated(g, i as int) as nat);
    assert(line.skip(line.len() - path.len() - 1) =~= path.push('\n'));
}

/// A line with sizes as people read them tells the same sums as the line with plain numbers, and is
/// like it behind them.
pub proof fn lines_tell_the_same_either_way(g: Seq<EntryView>, i: u32)
    requires
        i < g.len(),
    ensures
        ({
            let plain = entry_line(g, i, true);
            let size = spelled(first_word(plain), false)->0;
            let allocated = spelled(first_word(behind_word(plain)), false)->0;
            entry_line(g, i, false) == cell(size_text(size as nat), 12) + cell(
                size_text(allocated as nat),
                12,
            ) + behind_word(behind_word(plain))
        }),
{
    a_line_tells_the_sums(g, i);
    let plain = entry_line(g, i, true);
    let path = path_of(g, i as int);
    reveal_strlit("dir");
    reveal_strlit("file");
    let size = decimal(total_size(g, i as int) as nat);
    let allocated = decimal(total_allocated(g, i as int) as nat);
    let kind = if is_directory(g[i as int].flags) {
        "dir"@
    } else {
        "file"@
    };
    let tail = cell(kind, 5) + path + "\n"@;
    assert(kind[0] != ' ');
    assert(tail[0] == kind[0]);
    let rest = cell(allocated, 12) + tail;
    lemma_no_space(total_size(g, i as int) as nat);
    lemma_no_space(total_allocated(g, i as int) as nat);
    assert(rest[0] == allocated[0]);
    assert(plain =~= cell(size, 12) + rest);
    lemma_cell_reads(size, 12, rest);
    lemma_cell_reads(allocated, 12, tail);
    assert(entry_line(g, i, false) =~= cell(size_text(total_size(g, i as int) as nat), 12) + cell(
        size_text(total_allocated(g, i as int) as nat),
        12,
    ) + tail);
}

/// Down the list of the largest entries the sizes in its lines never grow.
pub proof fn sizes_never_grow_down_the_list(
    g: Seq<EntryView>,
    ids: Seq<u32>,
    limit: int,
    top: Seq<u32>,
    j: int,
    k: int,
)
    requires
        limit >= 0,
        all_in(g, ids),
        is_top(g, OrderKey::TotalSize, ids, limit, top),
        0 <= j < k < top.len(),
    ensures
        spelled(first_word(entry_line(g, top[j], true)), false)->0 >= spelled(
            first_word(entry_line(g, top[k], true)),
            false,
        )->0,
{
    the_top_is_picked(g, OrderKey::TotalSize, ids, limit, top);
    nothing_larger_is_left_out(g, ids, limit, top, false);
    assert(ids.contains(top[j]) && ids.contains(top[k]));
    a_line_tells_the_sums(g, top[j]);
    a_line_tells_the_sums(g, top[k]);
}

proof fn lemma_grouped_word(n: nat)
    ensures
        !grouped(n).contains(' '),
        grouped(n).len() > 0,
        grouped(n)[0] != ' ',
        spelled(without_commas(grouped(n)), false) == Some(n as int),
{
    commas_stand_before_every_three_digits(n);
    a_count_keeps_its_digits(n);
    decimal_reads_back(n);
    let s = grouped(n);
    if s.contains(' ') {
        let k = choose|k: int| 0 <= k < s.len() && s[k] == ' ';
        assert(if (s.len() - k) % 4 == 0 {
            s[k] == ','
        } else {
            is_digit(s[k])
        });
    }
}

proof fn lemma_signed_word(n: int)
    ensures
        !decimal_int(n).contains(' '),
        decimal_int(n).len() > 0,
        decimal_int(n)[0] != ' ',
        spelled(decimal_int(n), true) == Some(n),
{
    decimal_int_reads_back(n);
    if n < 0 {
        lemma_no_space((-n) as nat);
        let digits = decimal((-n) as nat);
        let s = decimal_int(n);
        if s.contains(' ') {
            let k = choose|k: int| 0 <= k < s.len() && s[k] == ' ';
            assert(k > 0);
            assert(digits[k - 1] == ' ');
            assert(digits.contains(' '));
        }
    } else {
        lemma_no_space(n as nat);
    }
}

/// A word and a space are read as that word, and what follows them as it is.
pub proof fn lemma_word_reads(word: Seq<char>, rest: Seq<char>)
    requires
        !word.contains(' '),
        rest.len() > 0,
        rest[0] != ' ',
    ensures
        first_word(word + seq![' '] + rest) == word,
        behind_word(word + seq![' '] + rest) == rest,
{
    assert(padded(word, 0) =~= word);
    assert(cell(word, 0) + rest =~= word + seq![' '] + rest);
    lemma_cell_reads(word, 0, rest);
}

/// The lines of a group, with sizes as plain numbers, tell first how large each of its files is, then
/// how many there are and when they were changed, then their name; then their paths follow.
pub proof fn a_group_is_told_with_its_files(g: Seq<EntryView>, candidate: CandidateView)
    requires
        candidate.key.name.len() > 0,
        candidate.key.name[0] != ' ',
    ensures
        ({
            let text = candidate_lines(g, candidate, true);
            let more = behind_word(text);
            let times = behind_word(more);
            &&& spelled(first_word(text), false) == Some(candidate.key.size as int)
            &&& spelled(first_word(more), false) == Some(candidate.entries.len() as int)
            &&& spelled(first_word(times), true) == Some(candidate.key.modified as int)
            &&& behind_word(times) == candidate.key.name.push('\n') + path_lines(
                g,
                candidate.entries,
            )
        }),
{
    reveal_strlit("\n");
    let size = decimal(candidate.key.size as nat);
    let count = decimal(candidate.entries.len());
    let time = decimal_int(candidate.key.modified as int);
    let tail = candidate.key.name.push('\n') + path_lines(g, candidate.entries);
    let text = candidate_lines(g, candidate, true);
    lemma_no_space(candidate.key.size as nat);
    lemma_no_space(candidate.entries.len());
    lemma_signed_word(candidate.key.modified as int);
    decimal_reads_back(candidate.key.size as nat);
    decimal_reads_back(candidate.entries.len());
    let times = cell(time, 12) + tail;
    let more = cell(count, 7) + times;
    assert(text =~= cell(size, 12) + more);
    assert(tail[0] == candidate.key.name[0]);
    assert(times[0] == time[0]);
    assert(more[0] == count[0]);
    lemma_cell_reads(size, 12, more);
    lemma_cell_reads(count, 7, times);
    lemma_cell_reads(time, 12, tail);
}

/// Every file of a group has a line of its own with its path behind a tab, in the order of the files.
pub proof fn every_path_has_its_line(g: Seq<EntryView>, ids: Seq<u32>, last: u32)
    ensures
        path_lines(g, Seq::empty()) == Seq::<char>::empty(),
        path_lines(g, ids.push(last)) == path_lines(g, ids) + seq!['\t'] + path_of(g, last as int)
            + seq!['\n'],
{
    reveal_strlit("\t");
    reveal_strlit("\n");
    assert("\t"@ =~= seq!['\t']);
    assert("\n"@ =~= seq!['\n']);
    assert(ids.push(last).drop_last() =~= ids);
}

/// The line of a file type, with sizes as plain numbers, tells first how large its files are together,
/// then how much room they take, then how many they are, and ends in the extension.
pub proof fn a_type_is_told_with_its_numbers(types: Seq<TypeView>, stat: TypeView)
    requires
        stat.extension.len() > 0,
        stat.extension[0] != ' ',
    ensures
        type_lines(types.push(stat), true).len() >= type_lines(types, true).len(),
        type_lines(types.push(stat), true).take(type_lines(types, true).len() as int) == type_lines(
            types,
            true,
        ),
        ({
            let line = type_lines(types.push(stat), true).skip(type_lines(types, true).len() as int);
            let more = behind_word(line);
            let counts = behind_word(more);
            &&& spelled(first_word(line), false) == Some(stat.size as int)
            &&& spelled(first_word(more), false) == Some(stat.allocated as int)
            &&& spelled(without_commas(first_word(counts)), false) == Some(stat.files as int)
            &&& behind_word(counts) == stat.extension.push('\n')
        }),
{
    reveal_strlit("\n");
    assert(types.push(stat).drop_last() =~= types);
    let before = type_lines(types, true);
    let all = type_lines(types.push(stat), true);
    let size = decimal(stat.size as nat);
    let room = decimal(stat.allocated as nat);
    let count = grouped(stat.files as nat);
    let tail = stat.extension.push('\n');
    let counts = cell(count, 8) + tail;
    let more = cell(room, 12) + counts;
    let line = cell(size, 12) + more;
    assert(all =~= before + line);
    assert(all.take(before.len() as int) =~= before);
    assert(all.skip(before.len() as int) =~= line);
    lemma_no_space(stat.size as nat);
    lemma_no_space(stat.allocated as nat);
    lemma_grouped_word(stat.files as nat);
    decimal_reads_back(stat.size as nat);
    decimal_reads_back(stat.allocated as nat);
    assert(tail[0] == stat.extension[0]);
    assert(counts[0] == count[0]);
    assert(more[0] == room[0]);
    lemma_cell_reads(size, 12, more);
    lemma_cell_reads(room, 12, counts);
    lemma_cell_reads(count, 8, tail);
}

/// What was found is told in words that read back: how many files, folders and things that could not
/// be read.
pub proof fn what_was_found_reads_back(summary: ScanSummary)
    ensures
        ({
            let text = breakdown(summary);
            let folders = behind_word(behind_word(text));
            let rest = behind_word(behind_word(folders));
            &&& spelled(without_commas(first_word(text)), false) == Some(summary.files as int)
            &&& first_word(behind_word(text)) == seq!['f', 'i', 'l', 'e', 's', ',']
            &&& spelled(without_commas(first_word(folders)), false) == Some(
                summary.directories as int,
            )
            &&& spelled(without_commas(first_word(rest)), false) == Some(summary.inaccessible as int)
        }),
{
    reveal_strlit(" files, ");
    reveal_strlit(" folders, ");
    reveal_strlit(" inaccessible");
    let files = grouped(summary.files as nat);
    let folders = grouped(summary.directories as nat);
    let missed = grouped(summary.inaccessible as nat);
    lemma_grouped_word(summary.files as nat);
    lemma_grouped_word(summary.directories as nat);
    lemma_grouped_word(summary.inaccessible as nat);
    let a = seq!['f', 'i', 'l', 'e', 's', ','];
    let b = seq!['f', 'o', 'l', 'd', 'e', 'r', 's', ','];
    let end = seq!['i', 'n', 'a', 'c', 'c', 'e', 's', 's', 'i', 'b', 'l', 'e'];
    let last = missed + seq![' '] + end;
    let third = b + seq![' '] + last;
    let second = folders + seq![' '] + third;
    let first = a + seq![' '] + second;
    let text = breakdown(summary);
    assert(text =~= files + seq![' '] + first);
    assert(first[0] == 'f');
    assert(second[0] == folders[0]);
    assert(third[0] == 'f');
    assert(last[0] == missed[0]);
    assert(!a.contains(' '));
    assert(!b.contains(' '));
    lemma_word_reads(files, first);
    lemma_word_reads(a, second);
    lemma_word_reads(folders, third);
    lemma_word_reads(b, last);
    lemma_word_reads(missed, end);
}

/// The first line of the counts tells how many entries there are.
pub proof fn the_entries_are_counted_first(g: Seq<EntryView>, summary: ScanSummary)
    ensures
        ({
            let text = behind_word(summary_counts(g, summary));
            &&& grouped(summary.entries as nat).is_prefix_of(text)
            &&& spelled(without_commas(grouped(summary.entries as nat)), false) == Some(
                summary.entries as int,
            )
            &&& text.len() > grouped(summary.entries as nat).len()
            &&& text[grouped(summary.entries as nat).len() as int] == '\n'
        }),
{
    reveal_strlit("Entries");
    reveal_strlit("\n");
    lemma_grouped_word(summary.entries as nat);
    let word = "Entries"@;
    assert(!word.contains(' '));
    let rest = grouped(summary.entries as nat) + "\n"@ + titled("Breakdown"@, breakdown(summary))
        + titled("Accounted"@, accounted(g));
    assert(rest[0] == grouped(summary.entries as nat)[0]);
    assert(summary_counts(g, summary) =~= cell(word, 12) + rest);
    lemma_cell_reads(word, 12, rest);
}

/// What a scan accounts for is told as the sums over all entries, as far as they can be counted.
pub proof fn all_entries_are_accounted_for(g: Seq<EntryView>)
    requires
        is_forest(g),
    ensures
        accounted(g) == size_text(
            capped(sum_where(g.len(), |i: int| true, |i: int| g[i].size as nat), u64::MAX as nat),
        ) + " logical, "@ + size_text(
            capped(
                sum_where(g.len(), |i: int| true, |i: int| g[i].allocated as nat),
                u64::MAX as nat,
            ),
        ) + " allocated"@,
{
    roots_account_for_every_size(g);
    roots_account_for_every_allocation(g);
}

proof fn lemma_place_of_volume(volumes: Seq<VolumeInfo>, root: Seq<char>, from: int)
    requires
        0 <= from <= volumes.len(),
    ensures
        from <= place_of_volume(volumes, root, from) <= volumes.len(),
        place_of_volume(volumes, root, from) < volumes.len() ==> lower_all(
            volumes[place_of_volume(volumes, root, from)].root@,
        ) == lower_all(root),
        forall|j: int|
            from <= j < place_of_volume(volumes, root, from) ==> lower_all(
                (#[trigger] volumes[j]).root@,
            ) != lower_all(root),
    decreases volumes.len() - from,
{
    if from < volumes.len() && lower_all(volumes[from].root@) != lower_all(root) {
        lemma_place_of_volume(volumes, root, from + 1);
    }
}

/// What is used of a volume and what is free of it make it up. It is the first volume at that root,
/// whatever the case of letters; nothing is told of a volume that is not there, or of which the system
/// does not say how large it is.
pub proof fn used_and_free_make_up_the_volume(
    volumes: Seq<VolumeInfo>,
    volume: Seq<char>,
    told: u64,
    i: int,
)
    requires
        0 <= i < volumes.len(),
        lower_all(volumes[i].root@) == lower_all(trim_separators(volume).push('\\')),
        forall|j: int|
            0 <= j < i ==> lower_all((#[trigger] volumes[j]).root@) != lower_all(
                trim_separators(volume).push('\\'),
            ),
    ensures
        match (volumes[i].total_bytes, volumes[i].free_bytes) {
            (Some(total), Some(free)) => usage_of(volumes, volume, told) matches Some(usage) && {
                &&& usage.total == total
                &&& usage.accounted_allocated == told
                &&& free <= total ==> usage.used + free == total
                &&& free > total ==> usage.used == 0
            },
            _ => usage_of(volumes, volume, told) is None,
        },
{
    let root = trim_separators(volume).push('\\');
    lemma_place_of_volume(volumes, root, 0);
    let at = place_of_volume(volumes, root, 0);
    if at > i {
        assert(lower_all(volumes[i].root@) != lower_all(root));
    }
    if at < i {
        assert(lower_all(volumes[at].root@) != lower_all(root));
    }
}

/// Of a volume more is used than a scan accounts for, or nothing is said of it; what is said is the
/// difference.
pub proof fn what_is_missing_is_told(usage: VolumeUsage, missing: u64)
    ensures
        usage.used <= usage.accounted_allocated ==> usage_lines(usage) == cell("Volume"@, 12) + size_text(
            usage.used as nat,
        ) + " used of "@ + size_text(usage.total as nat) + " total\n"@,
        missing > 0 && usage.used == usage.accounted_allocated + missing ==> usage_lines(usage)
            == usage_lines((VolumeUsage { accounted_allocated: usage.used, ..usage })) + cell(
            "Unaccounted"@,
            12,
        ) + size_text(missing as nat)
            + " used by NTFS metadata, shadow copies, alternate streams, or other space not attributed to visible files\n"@,
{
    let head = cell("Volume"@, 12) + size_text(usage.used as nat) + " used of "@ + size_text(
        usage.total as nat,
    ) + " total\n"@;
    assert(head + Seq::<char>::empty() =~= head);
    if missing > 0 && usage.used == usage.accounted_allocated + missing {
        let tail = cell("Unaccounted"@, 12) + size_text(missing as nat)
            + " used by NTFS metadata, shadow copies, alternate streams, or other space not attributed to visible files\n"@;
        assert(usage_lines(usage) =~= head + tail);
        assert(usage_lines((VolumeUsage { accounted_allocated: usage.used, ..usage })) =~= head);
        assert(head + tail =~= head + cell("Unaccounted"@, 12) + size_text(missing as nat)
            + " used by NTFS metadata, shadow copies, alternate streams, or other space not attributed to visible files\n"@);
    }
}

/// The line of a volume tells where it is, how it is formatted, what of it is in use (all but what is
/// free) and how large it is.
pub proof fn a_volume_is_told_with_what_is_in_use(volume: VolumeInfo, used: u64, free: u64)
    requires
        used + free <= u64::MAX,
        volume.total_bytes == Some((used + free) as u64),
        volume.free_bytes == Some(free),
    ensures
        volume_line(volume) == cell(volume.root@, 8) + cell(
            match volume.kind {
                VolumeKind::Ntfs => "NTFS"@,
                VolumeKind::Other(name) => name@,
                VolumeKind::Unknown => "unknown"@,
            },
            10,
        ) + cell(size_text(used as nat), 12) + padded(size_text((used + free) as nat), 12) + "\n"@,
{
}

/// A list of the largest entries has a line for each of the first entries, as many as are asked for:
/// one more asked for is one line more, of the next entry, and no more than there are make no
/// difference.
pub proof fn one_more_asked_for_is_one_line_more(g: Seq<EntryView>, ids: Seq<u32>, limit: nat, raw: bool)
    ensures
        limit < ids.len() ==> top_entries_text(g, ids, limit + 1, raw) == top_entries_text(
            g,
            ids,
            limit,
            raw,
        ) + entry_line(g, ids[limit as int], raw),
        limit >= ids.len() ==> top_entries_text(g, ids, limit, raw) == top_entries_text(
            g,
            ids,
            ids.len(),
            raw,
        ),
        top_entries_text(g, ids, 0, raw) == top_entries_text(g, Seq::empty(), 0, raw),
{
    if limit < ids.len() {
        let fewer = ids.take(limit as int);
        let more = ids.take(limit as int + 1);
        assert(more.drop_last() =~= fewer);
        assert(more.last() == ids[limit as int]);
        assert(top_entries_text(g, ids, limit + 1, raw) =~= top_entries_text(g, ids, limit, raw)
            + entry_line(g, ids[limit as int], raw));
    }
    assert(ids.take(0) =~= Seq::<u32>::empty().take(0));
}

/// A list of duplicates has the lines of each of the first groups, as many as are asked for.
pub proof fn one_more_asked_for_is_one_group_more(
    g: Seq<EntryView>,
    groups: Seq<CandidateView>,
    limit: nat,
    raw: bool,
)
    ensures
        limit < groups.len() ==> duplicates_text(g, groups, limit + 1, raw) == duplicates_text(
            g,
            groups,
            limit,
            raw,
        ) + candidate_lines(g, groups[limit as int], raw),
        limit >= groups.len() ==> duplicates_text(g, groups, limit, raw) == duplicates_text(
            g,
            groups,
            groups.len(),
            raw,
        ),
{
    if limit < groups.len() {
        let fewer = groups.take(limit as int);
        let more = groups.take(limit as int + 1);
        assert(more.drop_last() =~= fewer);
        assert(more.last() == groups[limit as int]);
        assert(duplicates_text(g, groups, limit + 1, raw) =~= duplicates_text(g, groups, limit, raw)
            + candidate_lines(g, groups[limit as int], raw));
    }
}

/// A report that asks for the summary alone has no list of the largest entries, and one that does not
/// ask for duplicates or file types has no list of those.
pub proof fn only_what_is_asked_for_is_reported(
    part: Seq<char>,
    g: Seq<EntryView>,
    ids: Seq<u32>,
    command: ScanCommand,
)
    ensures
        command.summary_only <==> top_part(g, ids, command).len() == 0,
        is_duplicate_part(part, g, command) ==> (command.duplicates <==> part.len() > 0),
        is_type_part(part, g, command) ==> (command.file_types <==> part.len() > 0),
{
    reveal_strlit("\n");
    assert("\n"@.len() == 1);
}

} // verus!
