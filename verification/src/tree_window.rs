//! The tree window: a panel with the state of the scan, and the rows of the tree that are expanded.

use std::sync::Arc;

use vstd::prelude::*;

use crate::format::{a_count_keeps_its_digits, format_bytes, format_count, grouped, size_text,
    without_commas};
use crate::graph::{capped, is_directory, path_of, subtree_sum, the_first_mark_makes_a_directory,
    total_allocated, total_size, EntryFlags, EntryId, EntryView, FileGraph};
use crate::numbers::{decimal, decimal_reads_back, push_decimal, spelled};
use crate::ranking::is_sorted;
use crate::report::{breakdown, completed, scan_complete_detail, summary_detail};
use crate::scan::ScanSummary;
use crate::session::ScanOutcome;
use crate::startup::{ui_scanner_at, ui_scanner_place, ElevationAnswer, UiScannerMode};
use crate::targets::text_view;
use crate::text::{chars_of, push_text, trim, trim_spec};
use crate::totals::{allocated_of_all, graph_totals, size_of_all};
use crate::tree::{indexes, is_walkable, largest_totals_first, root_ids, TreeIndex, TreeView};
use crate::viewport::{all_lines, in_view, lemma_lines_of_all_lie_deep, lie_deep, row_of, rows_of,
    rows_view, visible_rows, ExpandedSet, Line};

verus! {

// ---------------------------------------------------------------------------------------------
// Rows
// ---------------------------------------------------------------------------------------------

/// How far a row is set in for every level above it.
pub const INDENT: u32 = 18;

/// A row of the window.
#[derive(Debug)]
pub struct DisplayRow {
    pub id: i32,
    pub name: String,
    pub size: String,
    pub allocated: String,
    pub kind: String,
    pub depth: i32,
    pub indent_px: i32,
    pub children: String,
    pub folder: bool,
    pub expanded: bool,
    pub selected: bool,
}

/// What a row of the window shows.
pub struct DisplayView {
    pub id: i32,
    pub name: Seq<char>,
    pub size: Seq<char>,
    pub allocated: Seq<char>,
    pub kind: Seq<char>,
    pub depth: i32,
    pub indent_px: i32,
    pub children: Seq<char>,
    pub folder: bool,
    pub expanded: bool,
    pub selected: bool,
}

impl View for DisplayRow {
    type V = DisplayView;

    open spec fn view(&self) -> DisplayView {
        DisplayView {
            id: self.id,
            name: self.name@,
            size: self.size@,
            allocated: self.allocated@,
            kind: self.kind@,
            depth: self.depth,
            indent_px: self.indent_px,
            children: self.children@,
            folder: self.folder,
            expanded: self.expanded,
            selected: self.selected,
        }
    }
}

/// A number as the window holds it: the largest where it is too large.
pub open spec fn held(n: int) -> i32 {
    if n > i32::MAX {
        i32::MAX
    } else {
        n as i32
    }
}

fn hold(n: u32) -> (r: i32)
    ensures
        r == held(n as int),
{
    if n > 0x7fff_ffff {
        i32::MAX
    } else {
        n as i32
    }
}

fn indent_of(depth: u32) -> (r: i32)
    ensures
        r == held(depth * INDENT),
{
    if depth > 0x7fff_ffff / INDENT {
        i32::MAX
    } else {
        (depth * INDENT) as i32
    }
}

/// The row of a line.
pub open spec fn display_of(
    g: Seq<EntryView>,
    below: Seq<Seq<u32>>,
    expanded: Set<u32>,
    selected: Option<EntryId>,
    line: Line,
) -> DisplayView {
    let i = line.id as int;
    let count = below[i].len();
    DisplayView {
        id: held(i),
        name: g[i].name,
        size: size_text(total_size(g, i) as nat),
        allocated: size_text(total_allocated(g, i) as nat),
        kind: if is_directory(g[i].flags) {
            "folder"@
        } else {
            "file"@
        },
        depth: held(line.depth as int),
        indent_px: held(line.depth * INDENT),
        children: if count == 0 {
            ""@
        } else {
            grouped(count)
        },
        folder: count > 0,
        expanded: expanded.contains(line.id),
        selected: selected == Some(EntryId(line.id)),
    }
}

/// What the rows show.
pub open spec fn displays_view(rows: Seq<DisplayRow>) -> Seq<DisplayView> {
    rows.map_values(|row: DisplayRow| row@)
}

/// The rows of these lines.
pub open spec fn displays_of(
    g: Seq<EntryView>,
    below: Seq<Seq<u32>>,
    expanded: Set<u32>,
    selected: Option<EntryId>,
    lines: Seq<Line>,
) -> Seq<DisplayView> {
    lines.map_values(|line: Line| display_of(g, below, expanded, selected, line))
}

// ---------------------------------------------------------------------------------------------
// The state of the window
// ---------------------------------------------------------------------------------------------

/// What the window shows.
#[derive(Debug)]
pub struct WindowState {
    pub graph: Option<Arc<FileGraph>>,
    pub index: Option<TreeIndex>,
    pub expanded: ExpandedSet,
    pub selected: Option<EntryId>,
    pub scanner_mode: UiScannerMode,
}

impl Default for WindowState {
    /// Nothing is shown.
    fn default() -> (r: Self)
        ensures
            r.wf(),
            r.graph is None,
            r.index is None,
            r.expanded@ == Set::<u32>::empty(),
            r.selected is None,
            r.scanner_mode == UiScannerMode::Auto,
    {
        WindowState {
            graph: None,
            index: None,
            expanded: ExpandedSet::new(),
            selected: None,
            scanner_mode: UiScannerMode::Auto,
        }
    }
}

impl WindowState {
    /// The graph is well-formed, and the index is that of the graph with the largest first.
    pub open spec fn wf(&self) -> bool {
        &&& self.graph matches Some(graph) ==> graph.wf()
        &&& self.index matches Some(index) ==> {
            &&& index.wf()
            &&& self.graph matches Some(graph) && indexes(graph@, largest_totals_first(), index@)
                && is_walkable(graph@, index@)
        }
    }
}

/// The lines that the window shows, from top to bottom; a list has no more than a machine can count.
pub open spec fn lines_shown(g: Seq<EntryView>, index: TreeView, expanded: Set<u32>) -> Seq<Line> {
    in_view(all_lines(g, index, expanded, None), 0, usize::MAX as nat)
}

/// The rows that the window shows.
pub open spec fn rows_shown(state: WindowState) -> Seq<DisplayView> {
    match (state.graph, state.index) {
        (Some(graph), Some(index)) => displays_of(
            graph@,
            index@.below,
            state.expanded@,
            state.selected,
            lines_shown(graph@, index@, state.expanded@),
        ),
        _ => Seq::empty(),
    }
}

fn display_row(
    graph: &FileGraph,
    index: &TreeIndex,
    expanded: &ExpandedSet,
    selected: Option<EntryId>,
    id: EntryId,
    depth: u32,
) -> (r: Option<DisplayRow>)
    requires
        graph.wf(),
        index.wf(),
        index@.below.len() == graph@.len(),
    ensures
        r is Some == (id.0 < graph@.len()),
        r matches Some(row) ==> row@ == display_of(
            graph@,
            index@.below,
            expanded@,
            selected,
            Line { id: id.0, depth: depth as nat },
        ),
{
    match (graph.entry(id), graph.stats(id), graph.name(id)) {
        (Some(entry), Some(stats), Some(name)) => {
            let child_count = index.child_count(id);
            let kind = if entry.flags.contains(EntryFlags::DIRECTORY) {
                "folder"
            } else {
                "file"
            };
            let children = if child_count == 0 {
                "".to_owned()
            } else {
                format_count(child_count as u64)
            };
            let is_selected = match selected {
                Some(chosen) => chosen.0 == id.0,
                None => false,
            };
            Some(
                DisplayRow {
                    id: hold(id.0),
                    name: name.to_owned(),
                    size: format_bytes(stats.total_size.bytes()),
                    allocated: format_bytes(stats.total_allocated.bytes()),
                    kind: kind.to_owned(),
                    depth: hold(depth),
                    indent_px: indent_of(depth),
                    children,
                    folder: child_count > 0,
                    expanded: expanded.contains(id),
                    selected: is_selected,
                },
            )
        },
        _ => None,
    }
}

/// The rows that the window shows; see [`rows_shown`].
#[must_use]
pub fn build_visible_rows(state: &WindowState) -> (r: Vec<DisplayRow>)
    requires
        state.wf(),
    ensures
        displays_view(r@) == rows_shown(*state),
{
    let mut rows: Vec<DisplayRow> = Vec::new();
    if let (Some(graph), Some(index)) = (&state.graph, &state.index) {
        let viewport = visible_rows(graph, index, &state.expanded, 0, usize::MAX, None);
        let ghost g = graph@;
        let ghost below = index@.below;
        let ghost lines = lines_shown(g, index@, state.expanded@);
        proof {
            graph.lemma_wf();
            lemma_lines_are_entries(g, index@, state.expanded@);
            assert(rows_view(viewport.rows@).len() == viewport.rows@.len());
        }
        let mut i: usize = 0;
        while i < viewport.rows.len()
            invariant
                graph.wf(),
                index.wf(),
                g == graph@,
                below == index@.below,
                below.len() == g.len(),
                i <= viewport.rows@.len(),
                viewport.rows@.len() == lines.len(),
                rows_view(viewport.rows@) == rows_of(g, below, state.expanded@, lines),
                lie_deep(g, lines),
                displays_view(rows@) == displays_of(
                    g,
                    below,
                    state.expanded@,
                    state.selected,
                    lines.take(i as int),
                ),
            decreases viewport.rows@.len() - i,
        {
            let ghost before = rows@;
            let ghost line = lines[i as int];
            proof {
                assert(rows_view(viewport.rows@)[i as int] == viewport.rows@[i as int]@);
                assert(rows_of(g, below, state.expanded@, lines)[i as int] == row_of(
                    g,
                    below,
                    state.expanded@,
                    line.id,
                    line.depth as u32,
                ));
            }
            let id = EntryId(viewport.rows[i].id);
            let depth = viewport.rows[i].depth;
            if let Some(row) = display_row(graph, index, &state.expanded, state.selected, id, depth) {
                rows.push(row);
                proof {
                    assert(displays_view(rows@) =~= displays_view(before).push(row@));
                    assert(lines.take(i + 1) =~= lines.take(i as int).push(line));
                    assert(displays_of(
                        g,
                        below,
                        state.expanded@,
                        state.selected,
                        lines.take(i + 1),
                    ) =~= displays_of(
                        g,
                        below,
                        state.expanded@,
                        state.selected,
                        lines.take(i as int),
                    ).push(row@));
                }
            }
            i += 1;
        }
        assert(lines.take(lines.len() as int) =~= lines);
    }
    rows
}

proof fn lemma_lines_are_entries(g: Seq<EntryView>, index: TreeView, expanded: Set<u32>)
    ensures
        lie_deep(g, lines_shown(g, index, expanded)),
{
    lemma_lines_of_all_lie_deep(g, index.below, expanded, None, index.roots, 0, -1);
    let all = all_lines(g, index, expanded, None);
    let shown = lines_shown(g, index, expanded);
    assert forall|k: int| 0 <= k < shown.len() implies (#[trigger] shown[k]).id < g.len()
        && shown[k].depth <= shown[k].id by {
        assert(shown[k] == all[k]);
    }
}

// ---------------------------------------------------------------------------------------------
// The panel
// ---------------------------------------------------------------------------------------------

/// What stands on the window besides the buttons.
#[derive(Debug)]
pub struct WindowPanel {
    pub scan_path: String,
    pub scanner_mode: i32,
    pub status_title: String,
    pub status_detail: String,
    pub scan_size: String,
    pub scan_allocated: String,
    pub scan_entries: String,
    pub scan_elapsed: String,
    pub selected_path: String,
    pub visible_count: String,
    pub scanning: bool,
    pub rows: Vec<DisplayRow>,
}

/// What the panel shows.
pub struct PanelView {
    pub scan_path: Seq<char>,
    pub scanner_mode: i32,
    pub status_title: Seq<char>,
    pub status_detail: Seq<char>,
    pub scan_size: Seq<char>,
    pub scan_allocated: Seq<char>,
    pub scan_entries: Seq<char>,
    pub scan_elapsed: Seq<char>,
    pub selected_path: Seq<char>,
    pub visible_count: Seq<char>,
    pub scanning: bool,
    pub rows: Seq<DisplayView>,
}

impl View for WindowPanel {
    type V = PanelView;

    open spec fn view(&self) -> PanelView {
        PanelView {
            scan_path: self.scan_path@,
            scanner_mode: self.scanner_mode,
            status_title: self.status_title@,
            status_detail: self.status_detail@,
            scan_size: self.scan_size@,
            scan_allocated: self.scan_allocated@,
            scan_entries: self.scan_entries@,
            scan_elapsed: self.scan_elapsed@,
            selected_path: self.selected_path@,
            visible_count: self.visible_count@,
            scanning: self.scanning,
            rows: displays_view(self.rows@),
        }
    }
}

impl WindowPanel {
    /// The panel before the first scan.
    #[must_use]
    pub fn new(scan_path: &str, scanner_mode: UiScannerMode) -> (r: Self)
        ensures
            r@ == (PanelView {
                scan_path: scan_path@,
                scanner_mode: ui_scanner_place(scanner_mode),
                status_title: "Ready"@,
                status_detail: "Choose a drive or folder and start a scan."@,
                scan_size: "-"@,
                scan_allocated: "-"@,
                scan_entries: "-"@,
                scan_elapsed: "-"@,
                selected_path: "No row selected"@,
                visible_count: "0 visible"@,
                scanning: false,
                rows: Seq::empty(),
            }),
    {
        let panel = WindowPanel {
            scan_path: scan_path.to_owned(),
            scanner_mode: scanner_mode.index(),
            status_title: "Ready".to_owned(),
            status_detail: "Choose a drive or folder and start a scan.".to_owned(),
            scan_size: "-".to_owned(),
            scan_allocated: "-".to_owned(),
            scan_entries: "-".to_owned(),
            scan_elapsed: "-".to_owned(),
            selected_path: "No row selected".to_owned(),
            visible_count: "0 visible".to_owned(),
            scanning: false,
            rows: Vec::new(),
        };
        assert(displays_view(panel.rows@) =~= Seq::<DisplayView>::empty());
        panel
    }

    fn set_status(&mut self, title: &str, detail: &str)
        ensures
            final(self)@ == (PanelView {
                status_title: title@,
                status_detail: detail@,
                ..old(self)@
            }),
    {
        self.status_title = title.to_owned();
        self.status_detail = detail.to_owned();
    }
}

/// The text for what is selected.
pub open spec fn selected_text(state: WindowState) -> Seq<char> {
    match (state.graph, state.selected) {
        (Some(graph), Some(id)) => if id.0 < graph@.len() {
            path_of(graph@, id.0 as int)
        } else {
            "Selected path is unavailable"@
        },
        _ => "No row selected"@,
    }
}

/// The text for what is selected; see [`selected_text`].
#[must_use]
pub fn selected_path_from_state(state: &WindowState) -> (r: String)
    requires
        state.wf(),
    ensures
        r@ == selected_text(*state),
{
    match (&state.graph, state.selected) {
        (Some(graph), Some(id)) => match graph.reconstruct_path(id) {
            Some(path) => path,
            None => "Selected path is unavailable".to_owned(),
        },
        _ => "No row selected".to_owned(),
    }
}

/// A panel that shows the rows of a state.
pub open spec fn refreshed(panel: PanelView, state: WindowState) -> PanelView {
    let rows = rows_shown(state);
    PanelView {
        visible_count: grouped(rows.len()) + " visible"@,
        selected_path: selected_text(state),
        rows,
        ..panel
    }
}

/// Shows the rows of a state; see [`refreshed`].
pub fn refresh_rows(panel: &mut WindowPanel, state: &WindowState)
    requires
        state.wf(),
    ensures
        final(panel)@ == refreshed(old(panel)@, *state),
{
    let rows = build_visible_rows(state);
    assert(displays_view(rows@).len() == rows@.len());
    let mut count = format_count(rows.len() as u64);
    push_text(&mut count, " visible");
    panel.visible_count = count;
    panel.selected_path = selected_path_from_state(state);
    panel.rows = rows;
}

// ---------------------------------------------------------------------------------------------
// What the buttons do
// ---------------------------------------------------------------------------------------------

/// What happens to the window.
#[derive(Debug)]
pub enum WindowEvent {
    DriveSelected(String),
    ScannerSelected(i32),
    CancelRequested,
    RowSelected(i32),
    RowToggled(i32),
}

/// The entry that a row number stands for: none where it is negative.
pub open spec fn entry_of_row(value: i32) -> Option<EntryId> {
    if value < 0 {
        None
    } else {
        Some(EntryId(value as u32))
    }
}

/// The entry that a row number stands for: none where it is negative.
#[must_use]
pub fn entry_id_from_i32(value: i32) -> (r: Option<EntryId>)
    ensures
        r == entry_of_row(value),
{
    if value < 0 {
        None
    } else {
        Some(EntryId(value as u32))
    }
}

/// The expanded entries once one of them has been collapsed, or another one expanded.
pub open spec fn flipped(expanded: Set<u32>, id: u32) -> Set<u32> {
    if expanded.contains(id) {
        expanded.remove(id)
    } else {
        expanded.insert(id)
    }
}

/// Whether this is what becomes of the window when something happens to it.
pub open spec fn follows(
    event: WindowEvent,
    before: WindowState,
    panel_before: PanelView,
    after: WindowState,
    panel_after: PanelView,
) -> bool {
    &&& after.graph == before.graph
    &&& after.index == before.index
    &&& match event {
        WindowEvent::DriveSelected(path) => {
            &&& after == before
            &&& panel_after == PanelView { scan_path: path@, ..panel_before }
        },
        WindowEvent::ScannerSelected(index) => {
            &&& after == WindowState { scanner_mode: ui_scanner_at(index), ..before }
            &&& panel_after == PanelView {
                scanner_mode: ui_scanner_place(ui_scanner_at(index)),
                ..panel_before
            }
        },
        WindowEvent::CancelRequested => {
            &&& after == before
            &&& panel_after == PanelView {
                status_title: "Cancelling"@,
                status_detail: "Stopping the current scan at the next safe checkpoint."@,
                ..panel_before
            }
        },
        WindowEvent::RowSelected(row) => match entry_of_row(row) {
            Some(id) => {
                &&& after == WindowState { selected: Some(id), ..before }
                &&& panel_after == refreshed(panel_before, after)
            },
            None => after == before && panel_after == panel_before,
        },
        WindowEvent::RowToggled(row) => match entry_of_row(row) {
            Some(id) => {
                &&& after.expanded@ == flipped(before.expanded@, id.0)
                &&& after.selected == before.selected
                &&& after.scanner_mode == before.scanner_mode
                &&& panel_after == refreshed(panel_before, after)
            },
            None => after == before && panel_after == panel_before,
        },
    }
}

/// Does what an event asks for. A request to cancel is for the running scan to heed as well.
pub fn on_event(state: &mut WindowState, panel: &mut WindowPanel, event: WindowEvent)
    requires
        old(state).wf(),
    ensures
        final(state).wf(),
        follows(event, *old(state), old(panel)@, *final(state), final(panel)@),
{
    match event {
        WindowEvent::DriveSelected(path) => {
            panel.scan_path = path;
        },
        WindowEvent::ScannerSelected(index) => {
            let mode = UiScannerMode::from_index(index);
            state.scanner_mode = mode;
            panel.scanner_mode = mode.index();
        },
        WindowEvent::CancelRequested => {
            panel.set_status("Cancelling", "Stopping the current scan at the next safe checkpoint.");
        },
        WindowEvent::RowSelected(row) => {
            if let Some(id) = entry_id_from_i32(row) {
                state.selected = Some(id);
                refresh_rows(panel, state);
            }
        },
        WindowEvent::RowToggled(row) => {
            if let Some(id) = entry_id_from_i32(row) {
                let ghost before = state.expanded@;
                if !state.expanded.insert(id) {
                    let _ = state.expanded.remove(id);
                    assert(before.insert(id.0).remove(id.0) =~= before.remove(id.0));
                }
                refresh_rows(panel, state);
            }
        },
    }
}

// ---------------------------------------------------------------------------------------------
// A scan from its start to its end
// ---------------------------------------------------------------------------------------------

/// A time in milliseconds.
pub open spec fn in_ms(elapsed_ms: u128) -> Seq<char> {
    decimal(elapsed_ms as nat) + " ms"@
}

fn ms_text(elapsed_ms: u128) -> (r: String)
    ensures
        r@ == in_ms(elapsed_ms),
{
    let mut r = String::new();
    push_decimal(&mut r, elapsed_ms);
    assert(r@ =~= decimal(elapsed_ms as nat));
    push_text(&mut r, " ms");
    r
}

/// Whether this is what a request for a scan leads to, and which path is scanned.
pub open spec fn starts(
    path_text: Seq<char>,
    mode: UiScannerMode,
    elevation: ElevationAnswer,
    before: WindowState,
    panel_before: PanelView,
    after: WindowState,
    panel_after: PanelView,
    scanned: Option<Seq<char>>,
) -> bool {
    let path = trim_spec(path_text);
    if path.len() == 0 {
        &&& scanned is None
        &&& after == before
        &&& panel_after == PanelView {
            status_title: "Path required"@,
            status_detail: "Enter a drive or folder path before scanning."@,
            ..panel_before
        }
    } else {
        match elevation {
            ElevationAnswer::Requested => {
                &&& scanned is None
                &&& after == before
                &&& panel_after == PanelView {
                    status_title: "Administrator scan requested"@,
                    status_detail: "Approve the UAC prompt to scan the NTFS volume directly."@,
                    ..panel_before
                }
            },
            ElevationAnswer::Failed(error) => {
                &&& scanned is None
                &&& after == before
                &&& panel_after == PanelView {
                    status_title: "Elevation check failed"@,
                    status_detail: error@,
                    ..panel_before
                }
            },
            ElevationAnswer::NotNeeded => {
                &&& scanned == Some(path)
                &&& after.graph is None
                &&& after.index is None
                &&& after.expanded@ == Set::<u32>::empty()
                &&& after.selected is None
                &&& after.scanner_mode == mode
                &&& panel_after == PanelView {
                    status_title: "Scanning"@,
                    status_detail: "Scanning "@ + path,
                    scan_size: "-"@,
                    scan_allocated: "-"@,
                    scan_entries: "0"@,
                    scan_elapsed: "0 ms"@,
                    scanning: true,
                    ..refreshed(panel_before, after)
                }
            },
        }
    }
}

/// Starts a scan, where there is a path to scan and it is to be scanned here.
pub fn start_scan(
    state: &mut WindowState,
    panel: &mut WindowPanel,
    path_text: &str,
    mode: UiScannerMode,
    elevation: ElevationAnswer,
) -> (r: Option<String>)
    requires
        old(state).wf(),
    ensures
        final(state).wf(),
        starts(
            path_text@,
            mode,
            elevation,
            *old(state),
            old(panel)@,
            *final(state),
            final(panel)@,
            text_view(r),
        ),
{
    let path = trim(path_text);
    if chars_of(&path).len() == 0 {
        panel.set_status("Path required", "Enter a drive or folder path before scanning.");
        return None;
    }
    match elevation {
        ElevationAnswer::Requested => {
            panel.set_status(
                "Administrator scan requested",
                "Approve the UAC prompt to scan the NTFS volume directly.",
            );
            None
        },
        ElevationAnswer::Failed(error) => {
            panel.set_status("Elevation check failed", &error);
            None
        },
        ElevationAnswer::NotNeeded => {
            state.graph = None;
            state.index = None;
            state.expanded.clear();
            state.selected = None;
            state.scanner_mode = mode;
            refresh_rows(panel, state);
            panel.scanning = true;
            let mut detail = "Scanning ".to_owned();
            push_text(&mut detail, &path);
            panel.set_status("Scanning", &detail);
            panel.scan_size = "-".to_owned();
            panel.scan_allocated = "-".to_owned();
            panel.scan_entries = "0".to_owned();
            panel.scan_elapsed = "0 ms".to_owned();
            Some(path)
        },
    }
}

/// Shows how far a scan is.
pub fn apply_progress(panel: &mut WindowPanel, summary: ScanSummary, elapsed_ms: u128)
    ensures
        final(panel)@ == (PanelView {
            status_title: "Scanning"@,
            status_detail: breakdown(summary),
            scan_entries: grouped(summary.entries as nat),
            scan_elapsed: in_ms(elapsed_ms),
            ..old(panel)@
        }),
{
    let detail = summary_detail(summary);
    panel.set_status("Scanning", &detail);
    panel.scan_entries = format_count(summary.entries);
    panel.scan_elapsed = ms_text(elapsed_ms);
}

/// Shows what a scan found: its roots are expanded, the largest first.
pub fn apply_scan_complete(
    state: &mut WindowState,
    panel: &mut WindowPanel,
    outcome: ScanOutcome,
    elapsed_ms: u128,
)
    requires
        old(state).wf(),
        outcome.graph.wf(),
    ensures
        final(state).wf(),
        final(state).graph matches Some(graph) && graph@ == outcome.graph@,
        final(state).index matches Some(index) && {
            &&& is_sorted(
                outcome.graph@,
                largest_totals_first(),
                root_ids(outcome.graph@),
                index@.roots,
            )
            &&& final(state).expanded@ == index@.roots.to_set()
        },
        final(state).selected is None,
        final(state).scanner_mode == old(state).scanner_mode,
        final(panel)@ == refreshed(
            (PanelView {
                status_title: "Scan complete"@,
                status_detail: completed(
                    outcome.scanner_label@,
                    text_view(outcome.fallback_reason),
                    outcome.summary,
                ),
                scan_size: size_text(
                    size_of_all(outcome.graph@, root_ids(outcome.graph@)) as nat,
                ),
                scan_allocated: size_text(
                    allocated_of_all(outcome.graph@, root_ids(outcome.graph@)) as nat,
                ),
                scan_entries: grouped(outcome.summary.entries as nat),
                scan_elapsed: in_ms(elapsed_ms),
                scanning: false,
                ..old(panel)@
            }),
            *final(state),
        ),
{
    let index = TreeIndex::build_by_total_size(&outcome.graph);
    let (size, allocated) = graph_totals(&outcome.graph);
    let reason = match &outcome.fallback_reason {
        Some(reason) => Some(reason.as_str()),
        None => None,
    };
    let detail = scan_complete_detail(outcome.scanner_label, reason, outcome.summary);
    state.expanded.reset_to(&index.roots);
    state.selected = None;
    state.graph = Some(Arc::new(outcome.graph));
    state.index = Some(index);
    panel.scanning = false;
    panel.set_status("Scan complete", &detail);
    panel.scan_size = format_bytes(size);
    panel.scan_allocated = format_bytes(allocated);
    panel.scan_entries = format_count(outcome.summary.entries);
    panel.scan_elapsed = ms_text(elapsed_ms);
    refresh_rows(panel, state);
}

/// Shows why a scan failed.
pub fn apply_scan_error(panel: &mut WindowPanel, error: &str)
    ensures
        final(panel)@ == (PanelView {
            status_title: "Scan failed"@,
            status_detail: error@,
            scanning: false,
            ..old(panel)@
        }),
{
    panel.scanning = false;
    panel.set_status("Scan failed", error);
}

// ---------------------------------------------------------------------------------------------
// Laws
// ---------------------------------------------------------------------------------------------

/// A row of the window shows its entry: under its own name, with the sums over all that lies below it
/// as far as they can be counted, and with as many children as are listed below it. What has children
/// can be opened, and is shown as open where it is.
pub proof fn a_row_of_the_window_shows_its_entry(
    g: Seq<EntryView>,
    below: Seq<Seq<u32>>,
    expanded: Set<u32>,
    selected: Option<EntryId>,
    line: Line,
)
    requires
        line.id < g.len(),
        line.id <= i32::MAX,
        line.depth <= 0xffff,
    ensures
        ({
            let row = display_of(g, below, expanded, selected, line);
            let i = line.id as int;
            let n = g.len() as int;
            &&& row.id == line.id
            &&& entry_of_row(row.id) == Some(EntryId(line.id))
            &&& row.name == g[i].name
            &&& row.size == size_text(
                capped(subtree_sum(g, i, |j: int| g[j].size as nat, n), u64::MAX as nat),
            )
            &&& row.allocated == size_text(
                capped(subtree_sum(g, i, |j: int| g[j].allocated as nat, n), u64::MAX as nat),
            )
            &&& row.kind == if g[i].flags % 2 == 1 {
                "folder"@
            } else {
                "file"@
            }
            &&& row.depth == line.depth
            &&& row.folder <==> below[i].len() > 0
            &&& below[i].len() > 0 ==> spelled(without_commas(row.children), false) == Some(
                below[i].len() as int,
            )
            &&& below[i].len() == 0 ==> row.children.len() == 0
            &&& row.expanded <==> expanded.contains(line.id)
            &&& row.selected <==> selected == Some(EntryId(line.id))
        }),
{
    let i = line.id as int;
    the_first_mark_makes_a_directory(g[i].flags);
    reveal_strlit("");
    a_count_keeps_its_digits(below[i].len());
    decimal_reads_back(below[i].len());
}

/// A deeper row is set further in than one above it, by as much for every step.
pub proof fn deeper_rows_are_set_further_in(
    g: Seq<EntryView>,
    below: Seq<Seq<u32>>,
    expanded: Set<u32>,
    selected: Option<EntryId>,
    a: Line,
    b: Line,
)
    requires
        a.depth <= b.depth <= 0xffff,
    ensures
        display_of(g, below, expanded, selected, b).indent_px - display_of(
            g,
            below,
            expanded,
            selected,
            a,
        ).indent_px == INDENT * (b.depth - a.depth),
{
}

/// Opening an entry and closing it again leaves open what was open, and nothing else changes.
pub proof fn opening_and_closing_undo_each_other(expanded: Set<u32>, id: u32, other: u32)
    ensures
        flipped(flipped(expanded, id), id) == expanded,
        flipped(expanded, id).contains(id) == !expanded.contains(id),
        other != id ==> flipped(expanded, id).contains(other) == expanded.contains(other),
{
    assert(flipped(flipped(expanded, id), id) =~= expanded);
}

} // verus!
