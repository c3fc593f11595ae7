//! The native window: its controls, what its messages and commands ask for, and what becomes of it as
//! a scan goes on.

use std::sync::Arc;

use vstd::prelude::*;

use crate::dashboard::{are_tree_rows, outlines_view, tree_rows_from_graph, OutlineRow};
use crate::desktop::{Received, UiScanProgress};
use crate::format::{format_count, grouped};
use crate::graph::FileGraph;
use crate::numbers::{decimal, push_decimal};
use crate::scan::ScanSummary;
use crate::session::ScanOutcome;
use crate::startup::{ui_scanner_label, ElevationAnswer, NativeStartup, UiScannerMode};
use crate::stats::{are_types, file_type_stats, types_view, FileTypeStat};
use crate::targets::text_view;
use crate::text::{all_white, chars_of, is_white_space_spec, push_text, trim, trim_spec,
    trimming_leaves_the_text};
use crate::totals::{allocated_of_all, graph_totals, size_of_all};
use crate::tree::root_ids;
use crate::treemap::{are_file_rows, are_items, file_rows_from_graph, items_view,
    treemap_items_from_graph, FileRow, TreemapItem};
use crate::volume::VolumeShortcut;

verus! {

/// How many rows of the tree are shown at most.
pub const TREE_ROW_LIMIT: usize = 700;

/// How many files are shown at most.
pub const FILE_ROW_LIMIT: usize = 700;

/// How many types of files are shown at most.
pub const TYPE_ROW_LIMIT: usize = 120;

/// How many files the treemap shows at most.
pub const TREEMAP_LIMIT: usize = 160;

/// How many rows a turn of the wheel scrolls.
pub const WHEEL_STEP: usize = 4;

// ---------------------------------------------------------------------------------------------
// The controls
// ---------------------------------------------------------------------------------------------

pub const IDC_PATH: u16 = 1001;

pub const IDC_SCAN: u16 = 1002;

pub const IDC_CANCEL: u16 = 1003;

pub const IDC_AUTO: u16 = 1004;

pub const IDC_NTFS: u16 = 1005;

pub const IDC_FALLBACK: u16 = 1006;

pub const IDC_TAB_TREE: u16 = 1101;

pub const IDC_TAB_FILES: u16 = 1102;

pub const IDC_TAB_TYPES: u16 = 1103;

pub const IDC_TAB_TREEMAP: u16 = 1104;

/// The number of the first drive; the others follow.
pub const IDC_DRIVE_BASE: u16 = 2000;

/// The number of the control for the `k`-th drive.
pub open spec fn drive_number(k: nat) -> u16 {
    let n = IDC_DRIVE_BASE + k % 0x1_0000;
    if n > u16::MAX {
        u16::MAX
    } else {
        n as u16
    }
}

/// The number of the control for the `k`-th drive.
#[must_use]
pub fn drive_control_id(k: usize) -> (r: u16)
    ensures
        r == drive_number(k as nat),
{
    IDC_DRIVE_BASE.saturating_add((k % 0x1_0000) as u16)
}

/// Whether a control can be used while a scan is running, or while none is. The path, the scanners,
/// the drives and the button that starts a scan can be used while none is running; the tabs always.
pub open spec fn is_usable(id: u16, running: bool) -> bool {
    if id == IDC_CANCEL {
        running
    } else if IDC_TAB_TREE <= id <= IDC_TAB_TREEMAP {
        true
    } else {
        !running
    }
}

/// Whether a control can be used; see [`is_usable`].
#[must_use]
pub fn control_enabled(id: u16, running: bool) -> (r: bool)
    ensures
        r == is_usable(id, running),
{
    if id == IDC_CANCEL {
        running
    } else if IDC_TAB_TREE <= id && id <= IDC_TAB_TREEMAP {
        true
    } else {
        !running
    }
}

// ---------------------------------------------------------------------------------------------
// What the window holds
// ---------------------------------------------------------------------------------------------

/// The views of a scan.
#[derive(Debug, Clone, Copy, PartialEq, Eq, Structural)]
pub enum NativeTab {
    Tree,
    Files,
    Types,
    Treemap,
}

/// What is shown of a scan.
#[derive(Debug)]
pub struct NativeResult {
    pub graph: Arc<FileGraph>,
    pub summary: ScanSummary,
    pub elapsed_ms: u128,
    pub scanner_label: &'static str,
    pub fallback_reason: Option<String>,
    pub total_size: u64,
    pub total_allocated: u64,
    pub tree_rows: Vec<OutlineRow>,
    pub file_rows: Vec<FileRow>,
    pub type_rows: Vec<FileTypeStat>,
    pub treemap_items: Vec<TreemapItem>,
}

impl NativeResult {
    /// The graph is well-formed, and the lists and totals are those of the graph.
    pub open spec fn wf(&self) -> bool {
        &&& self.graph.wf()
        &&& self.total_size == size_of_all(self.graph@, root_ids(self.graph@))
        &&& self.total_allocated == allocated_of_all(self.graph@, root_ids(self.graph@))
        &&& are_tree_rows(self.graph@, TREE_ROW_LIMIT as nat, outlines_view(self.tree_rows@))
        &&& are_file_rows(self.graph@, FILE_ROW_LIMIT as nat, self.file_rows@)
        &&& are_types(self.graph@, TYPE_ROW_LIMIT as nat, types_view(self.type_rows@))
        &&& are_items(self.graph@, TREEMAP_LIMIT as nat, items_view(self.treemap_items@))
    }

    /// What is shown of what a scan found.
    #[must_use]
    pub fn from_outcome(outcome: ScanOutcome, elapsed_ms: u128) -> (r: Self)
        requires
            outcome.graph.wf(),
        ensures
            r.wf(),
            r.graph@ == outcome.graph@,
            r.summary == outcome.summary,
            r.elapsed_ms == elapsed_ms,
            r.scanner_label@ == outcome.scanner_label@,
            text_view(r.fallback_reason) == text_view(outcome.fallback_reason),
    {
        let tree_rows = tree_rows_from_graph(&outcome.graph, TREE_ROW_LIMIT);
        let file_rows = file_rows_from_graph(&outcome.graph, FILE_ROW_LIMIT);
        let type_rows = file_type_stats(&outcome.graph, TYPE_ROW_LIMIT);
        let treemap_items = treemap_items_from_graph(&outcome.graph, TREEMAP_LIMIT);
        let (total_size, total_allocated) = graph_totals(&outcome.graph);
        NativeResult {
            graph: Arc::new(outcome.graph),
            summary: outcome.summary,
            elapsed_ms,
            scanner_label: outcome.scanner_label,
            fallback_reason: outcome.fallback_reason,
            total_size,
            total_allocated,
            tree_rows,
            file_rows,
            type_rows,
            treemap_items,
        }
    }
}

/// Where the window stands.
#[derive(Debug)]
pub enum NativeState {
    Idle,
    Scanning(Option<UiScanProgress>),
    Complete(Box<NativeResult>),
    Error(String),
}

/// A message of a scan.
#[derive(Debug)]
pub enum NativeMessage {
    Progress(UiScanProgress),
    Complete(Box<NativeResult>),
    Error(String),
}

/// The native window.
#[derive(Debug)]
pub struct NativeApp {
    pub volumes: Vec<VolumeShortcut>,
    pub scanner_mode: UiScannerMode,
    pub active_tab: NativeTab,
    pub state: NativeState,
    /// Whether messages of a scan are waited for.
    pub receiving: bool,
    /// Whether there is a scan that can be cancelled.
    pub cancellable: bool,
    pub status: String,
    pub scroll_top: usize,
    pub start_on_launch: bool,
    pub initial_path: String,
}

/// What the native window holds.
pub struct NativeView {
    pub volumes: Vec<VolumeShortcut>,
    pub scanner_mode: UiScannerMode,
    pub active_tab: NativeTab,
    pub state: NativeState,
    pub receiving: bool,
    pub cancellable: bool,
    pub status: Seq<char>,
    pub scroll_top: usize,
    pub start_on_launch: bool,
    pub initial_path: Seq<char>,
}

impl View for NativeApp {
    type V = NativeView;

    open spec fn view(&self) -> NativeView {
        NativeView {
            volumes: self.volumes,
            scanner_mode: self.scanner_mode,
            active_tab: self.active_tab,
            state: self.state,
            receiving: self.receiving,
            cancellable: self.cancellable,
            status: self.status@,
            scroll_top: self.scroll_top,
            start_on_launch: self.start_on_launch,
            initial_path: self.initial_path@,
        }
    }
}

/// What is to be done beyond what the window holds.
#[derive(Debug)]
pub enum NativeAction {
    Nothing,
    /// The window is to be painted anew.
    Repaint,
    /// A scan of the path in the window is to be started.
    StartScan,
    /// The running scan is to be cancelled, and the window to be painted anew.
    CancelScan,
    /// The path is to be put into the window, and the window to be painted anew.
    SetPath(String),
}

/// What a command is for.
pub enum CommandView {
    Scan,
    Cancel,
    Scanner(UiScannerMode),
    Tab(NativeTab),
    Drive(nat),
    Other,
}

/// What the command with this number is for.
pub open spec fn command_of(id: u16) -> CommandView {
    if id == IDC_SCAN {
        CommandView::Scan
    } else if id == IDC_CANCEL {
        CommandView::Cancel
    } else if id == IDC_AUTO {
        CommandView::Scanner(UiScannerMode::Auto)
    } else if id == IDC_NTFS {
        CommandView::Scanner(UiScannerMode::Ntfs)
    } else if id == IDC_FALLBACK {
        CommandView::Scanner(UiScannerMode::Fallback)
    } else if id == IDC_TAB_TREE {
        CommandView::Tab(NativeTab::Tree)
    } else if id == IDC_TAB_FILES {
        CommandView::Tab(NativeTab::Files)
    } else if id == IDC_TAB_TYPES {
        CommandView::Tab(NativeTab::Types)
    } else if id == IDC_TAB_TREEMAP {
        CommandView::Tab(NativeTab::Treemap)
    } else if id >= IDC_DRIVE_BASE {
        CommandView::Drive((id - IDC_DRIVE_BASE) as nat)
    } else {
        CommandView::Other
    }
}

/// Whether a window becomes this, and this is to be done, where a command is given.
pub open spec fn obeys(id: u16, before: NativeView, after: NativeView, action: NativeAction) -> bool {
    match command_of(id) {
        CommandView::Scan => action is StartScan && after == before,
        CommandView::Cancel => if before.cancellable {
            &&& action is CancelScan
            &&& after == NativeView { status: "Cancelling scan"@, ..before }
        } else {
            action is Nothing && after == before
        },
        CommandView::Scanner(mode) => {
            &&& action is Repaint
            &&& after == NativeView {
                scanner_mode: mode,
                status: "Scanner set to "@ + ui_scanner_label(mode),
                ..before
            }
        },
        CommandView::Tab(tab) => {
            &&& action is Repaint
            &&& after == NativeView { active_tab: tab, scroll_top: 0, ..before }
        },
        CommandView::Drive(k) => if k < before.volumes@.len() {
            let root = before.volumes@[k as int].root@;
            &&& action matches NativeAction::SetPath(path) && path@ == root
            &&& after == NativeView { status: "Path set to "@ + root, ..before }
        } else {
            action is Nothing && after == before
        },
        CommandView::Other => action is Nothing && after == before,
    }
}

impl NativeApp {
    /// What is shown is what was found in the scan that is shown.
    pub open spec fn wf(&self) -> bool {
        self.state matches NativeState::Complete(result) ==> result.wf()
    }

    /// The window before the first scan.
    #[must_use]
    pub fn new(startup: NativeStartup, volumes: Vec<VolumeShortcut>) -> (r: Self)
        ensures
            r.wf(),
            r@ == (NativeView {
                volumes,
                scanner_mode: startup.scanner_mode,
                active_tab: NativeTab::Tree,
                state: NativeState::Idle,
                receiving: false,
                cancellable: false,
                status: "Ready"@,
                scroll_top: 0,
                start_on_launch: startup.start_on_launch,
                initial_path: startup.initial_path@,
            }),
    {
        NativeApp {
            volumes,
            scanner_mode: startup.scanner_mode,
            active_tab: NativeTab::Tree,
            state: NativeState::Idle,
            receiving: false,
            cancellable: false,
            status: "Ready".to_owned(),
            scroll_top: 0,
            start_on_launch: startup.start_on_launch,
            initial_path: startup.initial_path,
        }
    }

    fn set_scanner_mode(&mut self, mode: UiScannerMode) -> (r: NativeAction)
        requires
            old(self).wf(),
        ensures
            final(self).wf(),
            r is Repaint,
            final(self)@ == (NativeView {
                scanner_mode: mode,
                status: "Scanner set to "@ + ui_scanner_label(mode),
                ..old(self)@
            }),
    {
        self.scanner_mode = mode;
        let mut status = "Scanner set to ".to_owned();
        push_text(&mut status, mode.label());
        self.status = status;
        NativeAction::Repaint
    }

    fn set_active_tab(&mut self, tab: NativeTab) -> (r: NativeAction)
        requires
            old(self).wf(),
        ensures
            final(self).wf(),
            r is Repaint,
            final(self)@ == (NativeView { active_tab: tab, scroll_top: 0, ..old(self)@ }),
    {
        self.active_tab = tab;
        self.scroll_top = 0;
        NativeAction::Repaint
    }

    fn cancel_scan(&mut self) -> (r: NativeAction)
        requires
            old(self).wf(),
        ensures
            final(self).wf(),
            if old(self).cancellable {
                &&& r is CancelScan
                &&& final(self)@ == (NativeView { status: "Cancelling scan"@, ..old(self)@ })
            } else {
                r is Nothing && final(self)@ == old(self)@
            },
    {
        if self.cancellable {
            self.status = "Cancelling scan".to_owned();
            NativeAction::CancelScan
        } else {
            NativeAction::Nothing
        }
    }

    fn choose_drive(&mut self, k: usize) -> (r: NativeAction)
        requires
            old(self).wf(),
        ensures
            final(self).wf(),
            if k < old(self).volumes@.len() {
                let root = old(self).volumes@[k as int].root@;
                &&& r matches NativeAction::SetPath(path) && path@ == root
                &&& final(self)@ == (NativeView { status: "Path set to "@ + root, ..old(self)@ })
            } else {
                r is Nothing && final(self)@ == old(self)@
            },
    {
        if k < self.volumes.len() {
            let root = self.volumes[k].root.as_str().to_owned();
            let mut status = "Path set to ".to_owned();
            push_text(&mut status, &root);
            self.status = status;
            NativeAction::SetPath(root)
        } else {
            NativeAction::Nothing
        }
    }

    /// Obeys a command, and says what else is to be done; see [`obeys`].
    pub fn on_command(&mut self, id: u16) -> (r: NativeAction)
        requires
            old(self).wf(),
        ensures
            final(self).wf(),
            obeys(id, old(self)@, final(self)@, r),
    {
        if id == IDC_SCAN {
            NativeAction::StartScan
        } else if id == IDC_CANCEL {
            self.cancel_scan()
        } else if id == IDC_AUTO {
            self.set_scanner_mode(UiScannerMode::Auto)
        } else if id == IDC_NTFS {
            self.set_scanner_mode(UiScannerMode::Ntfs)
        } else if id == IDC_FALLBACK {
            self.set_scanner_mode(UiScannerMode::Fallback)
        } else if id == IDC_TAB_TREE {
            self.set_active_tab(NativeTab::Tree)
        } else if id == IDC_TAB_FILES {
            self.set_active_tab(NativeTab::Files)
        } else if id == IDC_TAB_TYPES {
            self.set_active_tab(NativeTab::Types)
        } else if id == IDC_TAB_TREEMAP {
            self.set_active_tab(NativeTab::Treemap)
        } else if id >= IDC_DRIVE_BASE {
            self.choose_drive((id - IDC_DRIVE_BASE) as usize)
        } else {
            NativeAction::Nothing
        }
    }

    /// What is to be scanned: the path that was typed, the current directory where none was; nothing
    /// while a scan is running.
    #[must_use]
    pub fn scan_target(&self, path_text: &str) -> (r: Option<String>)
        ensures
            text_view(r) == target_in(self@, path_text@),
    {
        match &self.state {
            NativeState::Scanning(_) => None,
            _ => {
                let trimmed = trim(path_text);
                if chars_of(&trimmed).len() == 0 {
                    Some(".".to_owned())
                } else {
                    Some(trimmed)
                }
            },
        }
    }

    /// Starts a scan, where it is to be done here, and says what is scanned.
    pub fn start_scan(&mut self, path_text: &str, elevation: ElevationAnswer) -> (r: Option<String>)
        requires
            old(self).wf(),
        ensures
            final(self).wf(),
            match target_in(old(self)@, path_text@) {
                None => r is None && final(self)@ == old(self)@,
                Some(path) => match elevation {
                    ElevationAnswer::Requested => {
                        &&& r is None
                        &&& final(self)@ == (NativeView {
                            status: "Administrator access requested for direct NTFS scanning"@,
                            ..old(self)@
                        })
                    },
                    ElevationAnswer::Failed(error) => {
                        &&& r is None
                        &&& final(self)@ == (NativeView {
                            state: NativeState::Error(error),
                            ..old(self)@
                        })
                    },
                    ElevationAnswer::NotNeeded => {
                        &&& text_view(r) == Some(path)
                        &&& final(self)@ == (NativeView {
                            state: NativeState::Scanning(None),
                            receiving: true,
                            cancellable: true,
                            status: "Scanning "@ + path,
                            scroll_top: 0,
                            ..old(self)@
                        })
                    },
                },
            },
    {
        let path = match self.scan_target(path_text) {
            Some(path) => path,
            None => {
                return None;
            },
        };
        match elevation {
            ElevationAnswer::Requested => {
                self.status = "Administrator access requested for direct NTFS scanning".to_owned();
                None
            },
            ElevationAnswer::Failed(error) => {
                self.state = NativeState::Error(error);
                None
            },
            ElevationAnswer::NotNeeded => {
                self.receiving = true;
                self.cancellable = true;
                self.state = NativeState::Scanning(None);
                let mut status = "Scanning ".to_owned();
                push_text(&mut status, &path);
                self.status = status;
                self.scroll_top = 0;
                Some(path)
            },
        }
    }

    /// Takes in what is there to be received of a scan, and says whether there may be more.
    pub fn receive_scan(&mut self, received: Received<NativeMessage>) -> (r: bool)
        requires
            old(self).wf(),
            received matches Received::Message(NativeMessage::Complete(result)) ==> result.wf(),
        ensures
            final(self).wf(),
            !old(self).receiving ==> !r && final(self)@ == old(self)@,
            old(self).receiving ==> match received {
                Received::Message(NativeMessage::Progress(progress)) => {
                    &&& r
                    &&& final(self)@ == (NativeView {
                        state: NativeState::Scanning(Some(progress)),
                        ..old(self)@
                    })
                },
                Received::Message(NativeMessage::Complete(result)) => {
                    &&& !r
                    &&& final(self)@ == (NativeView {
                        state: NativeState::Complete(result),
                        status: grouped(result.summary.entries as nat) + " entries scanned in "@
                            + decimal(result.elapsed_ms as nat) + " ms"@,
                        receiving: false,
                        cancellable: false,
                        scroll_top: 0,
                        ..old(self)@
                    })
                },
                Received::Message(NativeMessage::Error(error)) => {
                    &&& !r
                    &&& final(self)@ == (NativeView {
                        state: NativeState::Error(error),
                        status: "Scan failed"@,
                        receiving: false,
                        cancellable: false,
                        ..old(self)@
                    })
                },
                Received::Empty => !r && final(self)@ == old(self)@,
                Received::Disconnected => {
                    &&& !r
                    &&& final(self)@ == (NativeView {
                        receiving: false,
                        cancellable: false,
                        ..old(self)@
                    })
                },
            },
    {
        if !self.receiving {
            return false;
        }
        match received {
            Received::Message(NativeMessage::Progress(progress)) => {
                self.state = NativeState::Scanning(Some(progress));
                true
            },
            Received::Message(NativeMessage::Complete(result)) => {
                let mut status = format_count(result.summary.entries);
                push_text(&mut status, " entries scanned in ");
                push_decimal(&mut status, result.elapsed_ms);
                push_text(&mut status, " ms");
                self.status = status;
                self.state = NativeState::Complete(result);
                self.receiving = false;
                self.cancellable = false;
                self.scroll_top = 0;
                false
            },
            Received::Message(NativeMessage::Error(error)) => {
                self.state = NativeState::Error(error);
                self.status = "Scan failed".to_owned();
                self.receiving = false;
                self.cancellable = false;
                false
            },
            Received::Empty => false,
            Received::Disconnected => {
                self.receiving = false;
                self.cancellable = false;
                false
            },
        }
    }

    /// Scrolls: down where the wheel is turned towards the user, else up.
    pub fn on_mouse_wheel(&mut self, wparam: usize)
        requires
            old(self).wf(),
        ensures
            final(self).wf(),
            final(self)@ == (NativeView {
                scroll_top: scrolled(old(self).scroll_top, wparam),
                ..old(self)@
            }),
    {
        if high_word(wparam) >= 0x8000 {
            self.scroll_top = self.scroll_top.saturating_add(WHEEL_STEP);
        } else {
            self.scroll_top = self.scroll_top.saturating_sub(WHEEL_STEP);
        }
    }
}

/// What is to be scanned: the path that was typed, the current directory where none was; nothing
/// while a scan is running.
pub open spec fn target_in(app: NativeView, path_text: Seq<char>) -> Option<Seq<char>> {
    if app.state is Scanning {
        None
    } else if trim_spec(path_text).len() == 0 {
        Some("."@)
    } else {
        Some(trim_spec(path_text))
    }
}

/// The first row that is shown once the wheel was turned. The second sixteen bits say how far, as a
/// number that is negative where the highest of them is set.
pub open spec fn scrolled(scroll_top: usize, wparam: usize) -> usize {
    if (wparam / 0x1_0000) % 0x1_0000 >= 0x8000 {
        if scroll_top + WHEEL_STEP > usize::MAX {
            usize::MAX
        } else {
            (scroll_top + WHEEL_STEP) as usize
        }
    } else if scroll_top < WHEEL_STEP {
        0
    } else {
        (scroll_top - WHEEL_STEP) as usize
    }
}

/// The first sixteen bits.
#[must_use]
pub fn low_word(value: usize) -> (r: u16)
    ensures
        r == value % 0x1_0000,
{
    (value % 0x1_0000) as u16
}

fn high_word(value: usize) -> (r: u16)
    ensures
        r == (value / 0x1_0000) % 0x1_0000,
{
    ((value / 0x1_0000) % 0x1_0000) as u16
}

// ---------------------------------------------------------------------------------------------
// Messages
// ---------------------------------------------------------------------------------------------

/// A message of the system to the window.
#[derive(Debug, Clone, Copy, PartialEq, Eq, Structural)]
pub enum WindowMessage {
    /// The window is made, and gets its controls.
    Create,
    /// The window has another size.
    Size,
    /// A command is given.
    Command,
    /// There is something to be received of a scan.
    Scan,
    /// A scan is to be started.
    StartScan,
    /// The wheel was turned.
    Wheel,
    /// The background is to be erased.
    EraseBackground,
    /// A control asks for its colours.
    ControlColour,
    /// The window is to be painted.
    Paint,
    /// The window is gone.
    Destroy,
    /// Anything else.
    Other,
}

/// The first number that a program may use for messages of its own.
pub const WM_APP: u32 = 0x8000;

/// The number of the message that there is something to be received of a scan.
pub const WM_SCAN_MESSAGE: u32 = WM_APP + 1;

/// The number of the message that a scan is to be started.
pub const WM_START_SCAN: u32 = WM_APP + 2;

/// The message with this number.
pub open spec fn message_of(number: u32) -> WindowMessage {
    if number == 0x0001 {
        WindowMessage::Create
    } else if number == 0x0002 {
        WindowMessage::Destroy
    } else if number == 0x0005 {
        WindowMessage::Size
    } else if number == 0x000f {
        WindowMessage::Paint
    } else if number == 0x0014 {
        WindowMessage::EraseBackground
    } else if number == 0x0111 {
        WindowMessage::Command
    } else if number == 0x0133 || number == 0x0135 || number == 0x0138 {
        WindowMessage::ControlColour
    } else if number == 0x020a {
        WindowMessage::Wheel
    } else if number == WM_SCAN_MESSAGE {
        WindowMessage::Scan
    } else if number == WM_START_SCAN {
        WindowMessage::StartScan
    } else {
        WindowMessage::Other
    }
}

impl WindowMessage {
    /// The message with this number.
    #[must_use]
    pub fn from_number(number: u32) -> (r: Self)
        ensures
            r == message_of(number),
    {
        if number == 0x0001 {
            WindowMessage::Create
        } else if number == 0x0002 {
            WindowMessage::Destroy
        } else if number == 0x0005 {
            WindowMessage::Size
        } else if number == 0x000f {
            WindowMessage::Paint
        } else if number == 0x0014 {
            WindowMessage::EraseBackground
        } else if number == 0x0111 {
            WindowMessage::Command
        } else if number == 0x0133 || number == 0x0135 || number == 0x0138 {
            WindowMessage::ControlColour
        } else if number == 0x020a {
            WindowMessage::Wheel
        } else if number == WM_SCAN_MESSAGE {
            WindowMessage::Scan
        } else if number == WM_START_SCAN {
            WindowMessage::StartScan
        } else {
            WindowMessage::Other
        }
    }

    /// What the message is answered with, where the answer is always the same: that the background
    /// need not be erased, and otherwise that the message was seen to. A control that asks for its
    /// colours gets a brush, and any other message the answer of the system.
    #[must_use]
    pub fn answer(self) -> (r: Option<isize>)
        ensures
            r == match self {
                WindowMessage::EraseBackground => Some(1isize),
                WindowMessage::ControlColour | WindowMessage::Other => None,
                _ => Some(0isize),
            },
    {
        match self {
            WindowMessage::EraseBackground => Some(1),
            WindowMessage::ControlColour | WindowMessage::Other => None,
            _ => Some(0),
        }
    }
}

// ---------------------------------------------------------------------------------------------
// Laws
// ---------------------------------------------------------------------------------------------

/// The button of a drive chooses that drive: a command with its number is one for that drive, and no
/// two drives share a number, as long as there are numbers left.
pub proof fn the_button_of_a_drive_chooses_it(j: nat, k: nat)
    requires
        j < 0xf830,
        k < 0xf830,
    ensures
        command_of(drive_number(k)) == CommandView::Drive(k),
        drive_number(j) == drive_number(k) ==> j == k,
        drive_number(k) >= 2000,
{
}

/// A scan can be started where none can be cancelled, and the other way round; the views can be
/// chosen at any time.
pub proof fn a_scan_is_started_or_cancelled(running: bool, tab: u16)
    requires
        command_of(tab) is Tab,
    ensures
        is_usable(IDC_SCAN, running) == !is_usable(IDC_CANCEL, running),
        is_usable(IDC_CANCEL, running) == running,
        is_usable(IDC_PATH, running) == !running,
        is_usable(tab, running),
{
}

/// Turning the wheel towards the user, which the system tells with a negative number, and back again
/// leads to where it started; no turn leads above the first row.
pub proof fn scrolling_down_and_up_leads_back(top: usize, down: int, up: int, low: int)
    requires
        0 <= low < 0x1_0000,
        -0x8000 <= down < 0,
        0 <= up < 0x8000,
        top <= usize::MAX - 4,
    ensures
        ({
            let turned_down = ((down + 0x1_0000) * 0x1_0000 + low) as usize;
            let turned_up = (up * 0x1_0000 + low) as usize;
            &&& scrolled(top, turned_down) > top
            &&& scrolled(scrolled(top, turned_down), turned_up) == top
            &&& scrolled(top, turned_up) <= top
            &&& scrolled(0, turned_up) == 0
        }),
{
    let a = (down + 0x1_0000) * 0x1_0000 + low;
    let b = up * 0x1_0000 + low;
    assert(0 <= a < 0x1_0000_0000);
    assert(a / 0x1_0000 == down + 0x1_0000);
    assert(b / 0x1_0000 == up);
}

/// What is scanned is the path that was typed, without the white space around it; the current
/// directory where nothing was typed, and nothing while a scan is running.
pub proof fn what_was_typed_is_scanned(
    app: NativeView,
    before: Seq<char>,
    path: Seq<char>,
    after: Seq<char>,
)
    requires
        all_white(before),
        all_white(after),
        path.len() > 0 ==> !is_white_space_spec(path[0]) && !is_white_space_spec(path.last()),
    ensures
        app.state is Scanning ==> target_in(app, before + path + after) is None,
        !(app.state is Scanning) && path.len() > 0 ==> target_in(app, before + path + after) == Some(
            path,
        ),
        !(app.state is Scanning) && path.len() == 0 ==> target_in(app, before + path + after) == Some(
            seq!['.'],
        ),
{
    trimming_leaves_the_text(before, path, after);
    reveal_strlit(".");
    assert("."@ =~= seq!['.']);
}

} // verus!
