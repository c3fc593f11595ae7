//! The desktop window: what is typed and chosen in it, what it shows of a scan, and what becomes of
//! both as the scan and the actions on files go on.

use std::sync::Arc;

use vstd::prelude::*;

use crate::dashboard::{are_groups, are_tree_rows, duplicate_groups_from_graph, filtered_rows_from_graph,
    groups_view, is_found_by, outlines_view, tree_rows_from_graph, DuplicateGroup, FilteredRows,
    OutlineRow};
use crate::filter::QueryFilter;
use crate::graph::FileGraph;
use crate::inputs::{asks_for, field_text, first_complaint, is_matcher_for, FilterInputs, InputError,
    InputsView};
use crate::numbers::{decimal, decimal_reads_back, push_decimal, spelled};
use crate::report::{behind_word, first_word, lemma_no_space, lemma_word_reads};
use crate::scan::ScanSummary;
use crate::session::ScanOutcome;
use crate::startup::UiScannerMode;
use crate::stats::{are_types, file_type_stats, types_view, FileTypeStat};
use crate::targets::text_view;
use crate::text::{all_white, chars_of, is_white_space_spec, push_text, same_text, trim, trim_spec,
    trimming_leaves_the_text};
use crate::treemap::{are_items, items_view, treemap_items_from_graph, TreemapItem};
use crate::winpath::{behind_prefix, file_name, file_name_spec, is_bare_server, is_plain_name, join,
    join_path, join_then_split, parent, parent_spec, path_body, prefix_len, tidied};

verus! {

/// How many rows of the tree are shown at most.
pub const TREE_ROW_LIMIT: usize = 500;

/// How many groups of duplicates are shown at most.
pub const DUPLICATE_GROUP_LIMIT: usize = 100;

/// How many paths of a group of duplicates are shown at most.
pub const DUPLICATE_PATH_LIMIT: usize = 20;

/// How many types of files are shown at most.
pub const TYPE_LIMIT: usize = 50;

/// How many files the treemap shows at most.
pub const TREEMAP_LIMIT: usize = 120;

/// How many files that a filter finds are shown at most.
pub const RESULT_LIMIT: usize = 500;

// ---------------------------------------------------------------------------------------------
// What the window holds
// ---------------------------------------------------------------------------------------------

/// The views of a scan.
#[derive(Debug, Clone, Copy, PartialEq, Eq, Structural)]
pub enum ActiveTab {
    Tree,
    Files,
    Types,
    Treemap,
    Duplicates,
}

/// How far a scan is.
#[derive(Debug, Clone, Copy)]
pub struct UiScanProgress {
    pub summary: ScanSummary,
    pub elapsed_ms: u128,
}

/// What is shown of a scan.
#[derive(Debug)]
pub struct ScanResult {
    pub graph: Arc<FileGraph>,
    pub summary: ScanSummary,
    pub elapsed_ms: u128,
    pub scanner_label: &'static str,
    pub fallback_reason: Option<String>,
    pub tree_rows: Vec<OutlineRow>,
    pub file_types: Vec<FileTypeStat>,
    pub treemap_items: Vec<TreemapItem>,
    pub duplicate_groups: Vec<DuplicateGroup>,
}

impl ScanResult {
    /// The graph is well-formed, and the lists are those of the graph.
    pub open spec fn wf(&self) -> bool {
        &&& self.graph.wf()
        &&& are_tree_rows(self.graph@, TREE_ROW_LIMIT as nat, outlines_view(self.tree_rows@))
        &&& are_types(self.graph@, TYPE_LIMIT as nat, types_view(self.file_types@))
        &&& are_items(self.graph@, TREEMAP_LIMIT as nat, items_view(self.treemap_items@))
        &&& are_groups(
            self.graph@,
            DUPLICATE_GROUP_LIMIT as nat,
            DUPLICATE_PATH_LIMIT as nat,
            groups_view(self.duplicate_groups@),
        )
    }

    /// What is shown of what a scan found.
    #[must_use]
    pub fn from_outcome(outcome: ScanOutcome, elapsed_ms: u128) -> (r: Self)
        requires
            outcome.graph.wf(),
        ensures
            r.wf(),
            r.graph@ == outcome.graph@,
            r.summary == outcome.summary,
            r.elapsed_ms == elapsed_ms,
            r.scanner_label@ == outcome.scanner_label@,
            text_view(r.fallback_reason) == text_view(outcome.fallback_reason),
    {
        let tree_rows = tree_rows_from_graph(&outcome.graph, TREE_ROW_LIMIT);
        let file_types = file_type_stats(&outcome.graph, TYPE_LIMIT);
        let treemap_items = treemap_items_from_graph(&outcome.graph, TREEMAP_LIMIT);
        let duplicate_groups = duplicate_groups_from_graph(
            &outcome.graph,
            DUPLICATE_GROUP_LIMIT,
            DUPLICATE_PATH_LIMIT,
        );
        ScanResult {
            graph: Arc::new(outcome.graph),
            summary: outcome.summary,
            elapsed_ms,
            scanner_label: outcome.scanner_label,
            fallback_reason: outcome.fallback_reason,
            tree_rows,
            file_types,
            treemap_items,
            duplicate_groups,
        }
    }
}

/// Where a window stands.
#[derive(Debug)]
pub enum UiState {
    Idle,
    Scanning(Option<UiScanProgress>),
    Complete(Box<ScanResult>),
    Error(String),
}

/// What a filter found, and the fields that it was made from.
#[derive(Debug)]
pub struct ViewCache {
    pub signature: FilterInputs,
    pub found: FilteredRows,
}

/// What came of an action.
#[derive(Debug)]
pub struct ActionStatus {
    pub message: String,
    pub is_error: bool,
}

/// What is said of an action.
pub struct StatusView {
    pub message: Seq<char>,
    pub is_error: bool,
}

impl View for ActionStatus {
    type V = StatusView;

    open spec fn view(&self) -> StatusView {
        StatusView { message: self.message@, is_error: self.is_error }
    }
}

/// What is said of an action, if anything is.
pub open spec fn status_view(status: Option<ActionStatus>) -> Option<StatusView> {
    match status {
        Some(said) => Some(said@),
        None => None,
    }
}

fn said(message: &str, is_error: bool) -> (r: Option<ActionStatus>)
    ensures
        status_view(r) == Some(StatusView { message: message@, is_error }),
{
    Some(ActionStatus { message: message.to_owned(), is_error })
}

/// The desktop window.
#[derive(Debug)]
pub struct DiskLoomApp {
    pub path: String,
    pub scanner_mode: UiScannerMode,
    pub filters: FilterInputs,
    pub view_cache: Option<ViewCache>,
    pub selected_path: Option<String>,
    pub rename_target: String,
    pub export_path: String,
    pub export_include_directories: bool,
    pub action_status: Option<ActionStatus>,
    /// Whether an action goes on in the background.
    pub acting: bool,
    pub active_tab: ActiveTab,
    pub state: UiState,
    /// Whether messages of a scan are waited for.
    pub receiving: bool,
}

/// What the desktop window holds.
pub struct AppView {
    pub path: Seq<char>,
    pub scanner_mode: UiScannerMode,
    pub filters: InputsView,
    pub view_cache: Option<ViewCache>,
    pub selected_path: Option<Seq<char>>,
    pub rename_target: Seq<char>,
    pub export_path: Seq<char>,
    pub export_include_directories: bool,
    pub action_status: Option<StatusView>,
    pub acting: bool,
    pub active_tab: ActiveTab,
    pub state: UiState,
    pub receiving: bool,
}

impl View for DiskLoomApp {
    type V = AppView;

    open spec fn view(&self) -> AppView {
        AppView {
            path: self.path@,
            scanner_mode: self.scanner_mode,
            filters: self.filters@,
            view_cache: self.view_cache,
            selected_path: text_view(self.selected_path),
            rename_target: self.rename_target@,
            export_path: self.export_path@,
            export_include_directories: self.export_include_directories,
            action_status: status_view(self.action_status),
            acting: self.acting,
            active_tab: self.active_tab,
            state: self.state,
            receiving: self.receiving,
        }
    }
}

/// Whether this is what the filter that the fields make finds in a scan.
pub open spec fn is_view_of(cache: ViewCache, state: UiState) -> bool {
    state matches UiState::Complete(result) && exists|filter: QueryFilter|
        {
            &&& #[trigger] asks_for(filter, cache.signature@)
            &&& is_matcher_for(filter.name, cache.signature@.name, cache.signature@.regex)
            &&& is_matcher_for(filter.path, cache.signature@.path, cache.signature@.regex)
            &&& is_found_by(cache.found, result.graph@, filter, RESULT_LIMIT as nat)
        }
}

impl Default for DiskLoomApp {
    /// The window before the first scan.
    fn default() -> (r: Self)
        ensures
            r.wf(),
            r@ == (AppView {
                path: "."@,
                scanner_mode: UiScannerMode::Auto,
                filters: InputsView {
                    name: Seq::empty(),
                    extension: Seq::empty(),
                    path: Seq::empty(),
                    min_size: Seq::empty(),
                    max_size: Seq::empty(),
                    min_allocated: Seq::empty(),
                    max_allocated: Seq::empty(),
                    modified_after: Seq::empty(),
                    modified_before: Seq::empty(),
                    regex: false,
                    include_directories: true,
                },
                view_cache: None,
                selected_path: None,
                rename_target: ""@,
                export_path: "diskloom-export.csv"@,
                export_include_directories: true,
                action_status: None,
                acting: false,
                active_tab: ActiveTab::Tree,
                state: UiState::Idle,
                receiving: false,
            }),
    {
        let mut filters = FilterInputs::default();
        filters.include_directories = true;
        DiskLoomApp {
            path: ".".to_owned(),
            scanner_mode: UiScannerMode::Auto,
            filters,
            view_cache: None,
            selected_path: None,
            rename_target: "".to_owned(),
            export_path: "diskloom-export.csv".to_owned(),
            export_include_directories: true,
            action_status: None,
            acting: false,
            active_tab: ActiveTab::Tree,
            state: UiState::Idle,
            receiving: false,
        }
    }
}

/// A message of a scan.
#[derive(Debug)]
pub enum ScanMessage {
    Progress(UiScanProgress),
    Complete(Box<ScanResult>),
    Error(String),
}

/// What is there to be received.
#[derive(Debug)]
pub enum Received<T> {
    Message(T),
    /// Nothing yet.
    Empty,
    /// Nothing, and nothing will come.
    Disconnected,
}

/// What is selected and found is forgotten where a scan ends.
pub open spec fn ended(before: AppView, state: UiState) -> AppView {
    AppView {
        state,
        view_cache: None,
        selected_path: None,
        rename_target: ""@,
        receiving: false,
        ..before
    }
}

impl DiskLoomApp {
    /// What is shown is what was found in the scan that is shown, and messages are waited for only
    /// while a scan goes on.
    pub open spec fn wf(&self) -> bool {
        &&& self.receiving ==> self.state is Scanning
        &&& self.state matches UiState::Complete(result) ==> result.wf()
        &&& self.view_cache matches Some(cache) ==> is_view_of(cache, self.state)
    }

    // -----------------------------------------------------------------------------------------
    // A scan
    // -----------------------------------------------------------------------------------------

    /// Starts a scan and returns what is to be scanned: the path that was typed, the current
    /// directory where none was.
    pub fn start_scan(&mut self) -> (r: String)
        requires
            old(self).wf(),
        ensures
            final(self).wf(),
            r@ == if trim_spec(old(self)@.path).len() == 0 {
                "."@
            } else {
                trim_spec(old(self)@.path)
            },
            final(self)@ == (AppView {
                state: UiState::Scanning(None),
                view_cache: None,
                selected_path: None,
                rename_target: ""@,
                action_status: None,
                receiving: true,
                ..old(self)@
            }),
    {
        let trimmed = trim(&self.path);
        let path = if chars_of(&trimmed).len() == 0 {
            ".".to_owned()
        } else {
            trimmed
        };
        self.receiving = true;
        self.state = UiState::Scanning(None);
        self.view_cache = None;
        self.selected_path = None;
        self.rename_target = "".to_owned();
        self.action_status = None;
        path
    }

    fn end_scan(&mut self, state: UiState)
        requires
            state matches UiState::Complete(result) ==> result.wf(),
        ensures
            final(self).wf(),
            final(self)@ == ended(old(self)@, state),
    {
        self.state = state;
        self.view_cache = None;
        self.selected_path = None;
        self.rename_target = "".to_owned();
        self.receiving = false;
    }

    /// Takes in what is there to be received of a scan, and says whether there may be more.
    pub fn receive_scan(&mut self, received: Received<ScanMessage>) -> (r: bool)
        requires
            old(self).wf(),
            received matches Received::Message(ScanMessage::Complete(result)) ==> result.wf(),
        ensures
            final(self).wf(),
            !old(self).receiving ==> !r && final(self)@ == old(self)@,
            old(self).receiving ==> match received {
                Received::Message(ScanMessage::Progress(progress)) => {
                    &&& r
                    &&& final(self)@ == (AppView {
                        state: UiState::Scanning(Some(progress)),
                        ..old(self)@
                    })
                },
                Received::Message(ScanMessage::Complete(result)) => {
                    &&& !r
                    &&& final(self)@ == ended(old(self)@, UiState::Complete(result))
                },
                Received::Message(ScanMessage::Error(error)) => {
                    &&& !r
                    &&& final(self)@ == ended(old(self)@, UiState::Error(error))
                },
                Received::Empty => !r && final(self)@ == old(self)@,
                Received::Disconnected => {
                    &&& !r
                    &&& final(self).state matches UiState::Error(error) && error@
                        == "scan worker stopped"@
                    &&& final(self)@ == ended(old(self)@, final(self).state)
                },
            },
    {
        if !self.receiving {
            return false;
        }
        match received {
            Received::Message(ScanMessage::Progress(progress)) => {
                self.state = UiState::Scanning(Some(progress));
                true
            },
            Received::Message(ScanMessage::Complete(result)) => {
                self.end_scan(UiState::Complete(result));
                false
            },
            Received::Message(ScanMessage::Error(error)) => {
                self.end_scan(UiState::Error(error));
                false
            },
            Received::Empty => false,
            Received::Disconnected => {
                self.end_scan(UiState::Error("scan worker stopped".to_owned()));
                false
            },
        }
    }

    // -----------------------------------------------------------------------------------------
    // Actions on files
    // -----------------------------------------------------------------------------------------

    /// Takes in what is there to be received of an action in the background.
    pub fn receive_action(&mut self, received: Received<ActionStatus>)
        requires
            old(self).wf(),
        ensures
            final(self).wf(),
            final(self)@ == if !old(self).acting {
                old(self)@
            } else {
                match received {
                    Received::Message(status) => AppView {
                        action_status: Some(status@),
                        acting: false,
                        ..old(self)@
                    },
                    Received::Empty => old(self)@,
                    Received::Disconnected => AppView {
                        action_status: Some(
                            StatusView { message: "background action stopped"@, is_error: true },
                        ),
                        acting: false,
                        ..old(self)@
                    },
                }
            },
    {
        if !self.acting {
            return;
        }
        match received {
            Received::Message(status) => {
                self.action_status = Some(status);
                self.acting = false;
            },
            Received::Empty => {},
            Received::Disconnected => {
                self.action_status = said("background action stopped", true);
                self.acting = false;
            },
        }
    }

    /// Whether the scan can be exported now.
    #[must_use]
    pub fn export_enabled(&self) -> (r: bool)
        ensures
            r == (self.state is Complete && !self.acting),
    {
        match &self.state {
            UiState::Complete(_) => !self.acting,
            _ => false,
        }
    }

    /// Whether there is a file to act on.
    #[must_use]
    pub fn selection_enabled(&self) -> (r: bool)
        ensures
            r == (self.selected_path is Some),
    {
        self.selected_path.is_some()
    }

    /// What is to be exported, and where to: nothing where there is no scan, or no path.
    fn export_request(&mut self) -> (r: Option<(Arc<FileGraph>, String, bool)>)
        requires
            old(self).wf(),
        ensures
            final(self).wf(),
            match old(self).state {
                UiState::Complete(result) => if trim_spec(old(self)@.export_path).len() == 0 {
                    &&& r is None
                    &&& final(self)@ == (AppView {
                        action_status: Some(
                            StatusView { message: "CSV path is empty"@, is_error: true },
                        ),
                        ..old(self)@
                    })
                } else {
                    &&& r matches Some(request) && request.0.wf() && request.0@ == result.graph@
                        && request.1@ == trim_spec(old(self)@.export_path) && request.2 == old(
                        self,
                    ).export_include_directories
                    &&& final(self)@ == old(self)@
                },
                _ => r is None && final(self)@ == old(self)@,
            },
    {
        let graph = match &self.state {
            UiState::Complete(result) => Arc::clone(&result.graph),
            _ => {
                return None;
            },
        };
        let trimmed = trim(&self.export_path);
        if chars_of(&trimmed).len() == 0 {
            self.action_status = said("CSV path is empty", true);
            return None;
        }
        Some((graph, trimmed, self.export_include_directories))
    }

    /// Starts the export of the scan, and returns what is to be exported, where to, and whether with
    /// the directories.
    pub fn start_export(&mut self) -> (r: Option<(Arc<FileGraph>, String, bool)>)
        requires
            old(self).wf(),
        ensures
            final(self).wf(),
            match old(self).state {
                UiState::Complete(result) => if trim_spec(old(self)@.export_path).len() == 0 {
                    &&& r is None
                    &&& final(self)@ == (AppView {
                        action_status: Some(
                            StatusView { message: "CSV path is empty"@, is_error: true },
                        ),
                        ..old(self)@
                    })
                } else {
                    &&& r matches Some(request) && request.0.wf() && request.0@ == result.graph@
                        && request.1@ == trim_spec(old(self)@.export_path) && request.2 == old(
                        self,
                    ).export_include_directories
                    &&& final(self)@ == (AppView {
                        action_status: Some(
                            StatusView { message: "exporting CSV"@, is_error: false },
                        ),
                        acting: true,
                        ..old(self)@
                    })
                },
                _ => r is None && final(self)@ == old(self)@,
            },
    {
        let request = self.export_request();
        if request.is_some() {
            self.acting = true;
            self.action_status = said("exporting CSV", false);
        }
        request
    }

    /// Selects a file; its name is where a new one is typed.
    pub fn select_path(&mut self, path: &str)
        requires
            old(self).wf(),
        ensures
            final(self).wf(),
            final(self)@ == (AppView {
                selected_path: Some(path@),
                rename_target: match file_name_spec(path@) {
                    Some(name) => name,
                    None => ""@,
                },
                action_status: None,
                ..old(self)@
            }),
    {
        self.rename_target = match file_name(path) {
            Some(name) => name,
            None => "".to_owned(),
        };
        self.selected_path = Some(path.to_owned());
        self.action_status = None;
    }

    /// Whether a row of this path is the one that is selected.
    #[must_use]
    pub fn is_selected(&self, path: &str) -> (r: bool)
        ensures
            r == (self@.selected_path == Some(path@)),
    {
        match &self.selected_path {
            Some(selected) => same_text(selected, path),
            None => false,
        }
    }

    /// Says what came of an action on the file that is selected.
    pub fn run_shell_action(&mut self, success_message: &str, outcome: Result<(), &str>)
        requires
            old(self).wf(),
        ensures
            final(self).wf(),
            final(self)@ == if old(self).selected_path is None {
                old(self)@
            } else {
                AppView {
                    action_status: Some(
                        match outcome {
                            Ok(_) => StatusView { message: success_message@, is_error: false },
                            Err(error) => StatusView { message: error@, is_error: true },
                        },
                    ),
                    ..old(self)@
                }
            },
    {
        if self.selected_path.is_none() {
            return;
        }
        self.action_status = match outcome {
            Ok(_) => said(success_message, false),
            Err(error) => said(error, true),
        };
    }

    /// The file that is to be renamed and its new path, or what is said where there is none.
    pub fn rename_request(&mut self) -> (r: Option<(String, String)>)
        requires
            old(self).wf(),
        ensures
            final(self).wf(),
            match renaming(old(self)@) {
                Some(Ok(paths)) => {
                    &&& r matches Some(asked) && asked.0@ == paths.0 && asked.1@ == paths.1
                    &&& final(self)@ == old(self)@
                },
                Some(Err(message)) => {
                    &&& r is None
                    &&& final(self)@ == (AppView {
                        action_status: Some(StatusView { message, is_error: true }),
                        ..old(self)@
                    })
                },
                None => r is None && final(self)@ == old(self)@,
            },
    {
        let from = match &self.selected_path {
            Some(path) => path.as_str().to_owned(),
            None => {
                return None;
            },
        };
        let target = trim(&self.rename_target);
        if chars_of(&target).len() == 0 {
            self.action_status = said("rename target is empty", true);
            return None;
        }
        match parent(&from) {
            Some(directory) => {
                let to = join(&directory, &target);
                Some((from, to))
            },
            None => {
                self.action_status = said("selected path has no parent", true);
                None
            },
        }
    }

    /// Takes note of what came of renaming the file that is selected.
    pub fn rename_done(&mut self, to: &str, outcome: Result<(), &str>)
        requires
            old(self).wf(),
        ensures
            final(self).wf(),
            final(self)@ == match outcome {
                Ok(_) => AppView {
                    selected_path: Some(to@),
                    action_status: Some(
                        StatusView { message: "renamed; scan data is stale"@, is_error: false },
                    ),
                    ..old(self)@
                },
                Err(error) => AppView {
                    action_status: Some(StatusView { message: error@, is_error: true }),
                    ..old(self)@
                },
            },
    {
        match outcome {
            Ok(_) => {
                self.selected_path = Some(to.to_owned());
                self.action_status = said("renamed; scan data is stale", false);
            },
            Err(error) => {
                self.action_status = said(error, true);
            },
        }
    }

    // -----------------------------------------------------------------------------------------
    // What a filter finds
    // -----------------------------------------------------------------------------------------

    /// Forgets what a filter found, where a field was changed.
    pub fn filters_changed(&mut self, changed: bool)
        requires
            old(self).wf(),
        ensures
            final(self).wf(),
            final(self)@ == if changed {
                AppView { view_cache: None, ..old(self)@ }
            } else {
                old(self)@
            },
    {
        if changed {
            self.view_cache = None;
        }
    }

    /// What the filter finds: it is sought anew where the fields are no longer those that it was
    /// sought with.
    pub fn ensure_view_cache(&mut self) -> (r: Result<(), InputError>)
        requires
            old(self).wf(),
        ensures
            final(self).wf(),
            final(self)@ == (AppView { view_cache: final(self).view_cache, ..old(self)@ }),
            match r {
                Ok(_) => final(self).view_cache matches Some(cache) && cache.signature@ == old(
                    self,
                )@.filters,
                Err(InputError::Message(message)) => {
                    &&& final(self).view_cache == old(self).view_cache
                    &&& Some(message@) == if old(self).state is Complete {
                        first_complaint(old(self)@.filters)
                    } else {
                        Some("no scan result"@)
                    }
                },
                Err(InputError::Pattern(_)) => {
                    &&& final(self).view_cache == old(self).view_cache
                    &&& old(self).state is Complete
                    &&& old(self)@.filters.regex
                    &&& field_text(old(self)@.filters.name) is Some || field_text(
                        old(self)@.filters.path,
                    ) is Some
                },
            },
            old(self).view_cache matches Some(cache) && cache.signature@ == old(self)@.filters ==> r is Ok
                && final(self).view_cache == old(self).view_cache,
    {
        let is_fresh = match &self.view_cache {
            Some(cache) => cache.signature.is_same(&self.filters),
            None => false,
        };
        if is_fresh {
            return Ok(());
        }
        let found = match &self.state {
            UiState::Complete(result) => filtered_rows_from_graph(
                &result.graph,
                &self.filters,
                RESULT_LIMIT,
            ),
            _ => Err(InputError::Message("no scan result".to_owned())),
        };
        match found {
            Ok(found) => {
                let signature = self.filters.signature();
                let cache = ViewCache { signature, found };
                proof {
                    let inputs = self.filters@;
                    let g = self.state->Complete_0.graph@;
                    let filter = choose|filter: QueryFilter|
                        {
                            &&& #[trigger] asks_for(filter, inputs)
                            &&& is_matcher_for(filter.name, inputs.name, inputs.regex)
                            &&& is_matcher_for(filter.path, inputs.path, inputs.regex)
                            &&& is_found_by(cache.found, g, filter, RESULT_LIMIT as nat)
                        };
                    assert(asks_for(filter, cache.signature@));
                }
                self.view_cache = Some(cache);
                Ok(())
            },
            Err(error) => Err(error),
        }
    }
}

/// The file that is to be renamed and its new path, or what is said where it cannot be: nothing
/// where none is selected.
pub open spec fn renaming(app: AppView) -> Option<Result<(Seq<char>, Seq<char>), Seq<char>>> {
    match app.selected_path {
        Some(from) => {
            let target = trim_spec(app.rename_target);
            if target.len() == 0 {
                Some(Err("rename target is empty"@))
            } else {
                match parent_spec(from) {
                    Some(directory) => Some(Ok((from, join_path(directory, target)))),
                    None => Some(Err("selected path has no parent"@)),
                }
            }
        },
        None => None,
    }
}

// ---------------------------------------------------------------------------------------------
// What the window says
// ---------------------------------------------------------------------------------------------

/// What is said once an export has ended.
#[must_use]
pub fn export_done(output_path: &str, outcome: Result<(), &str>) -> (r: ActionStatus)
    ensures
        r@ == match outcome {
            Ok(_) => StatusView { message: "CSV exported to "@ + output_path@, is_error: false },
            Err(error) => StatusView { message: error@, is_error: true },
        },
{
    match outcome {
        Ok(_) => {
            let mut message = "CSV exported to ".to_owned();
            push_text(&mut message, output_path);
            ActionStatus { message, is_error: false }
        },
        Err(error) => ActionStatus { message: error.to_owned(), is_error: true },
    }
}

/// What is said where a step of an export failed: `create` or `export`.
#[must_use]
pub fn export_failure(step: &str, output_path: &str, error: &str) -> (r: String)
    ensures
        r@ == "failed to "@ + step@ + " "@ + output_path@ + ": "@ + error@,
{
    let mut r = "failed to ".to_owned();
    push_text(&mut r, step);
    push_text(&mut r, " ");
    push_text(&mut r, output_path);
    push_text(&mut r, ": ");
    push_text(&mut r, error);
    r
}

/// How a line is coloured.
#[derive(Debug, Clone, Copy, PartialEq, Eq, Structural)]
pub enum Tone {
    Plain,
    Good,
    Warning,
    Error,
}

/// The red, green and blue of a tone, where it has a colour of its own.
pub open spec fn tone_colour(tone: Tone) -> Option<(u8, u8, u8)> {
    match tone {
        Tone::Plain => None,
        Tone::Good => Some((132, 204, 153)),
        Tone::Warning => Some((224, 164, 82)),
        Tone::Error => Some((255, 128, 104)),
    }
}

impl Tone {
    /// The red, green and blue of a tone, where it has a colour of its own.
    #[must_use]
    pub fn colour(self) -> (r: Option<(u8, u8, u8)>)
        ensures
            r == tone_colour(self),
    {
        match self {
            Tone::Plain => None,
            Tone::Good => Some((132, 204, 153)),
            Tone::Warning => Some((224, 164, 82)),
            Tone::Error => Some((255, 128, 104)),
        }
    }
}

impl ActionStatus {
    /// How it is coloured.
    #[must_use]
    pub fn tone(&self) -> (r: Tone)
        ensures
            r == if self.is_error {
                Tone::Error
            } else {
                Tone::Good
            },
    {
        if self.is_error {
            Tone::Error
        } else {
            Tone::Good
        }
    }
}

/// A line of the status.
#[derive(Debug)]
pub struct StatusLine {
    pub text: String,
    pub tone: Tone,
}

/// What a line of the status says.
pub struct LineView {
    pub text: Seq<char>,
    pub tone: Tone,
}

impl View for StatusLine {
    type V = LineView;

    open spec fn view(&self) -> LineView {
        LineView { text: self.text@, tone: self.tone }
    }
}

/// What the lines of the status say.
pub open spec fn lines_view(lines: Seq<StatusLine>) -> Seq<LineView> {
    lines.map_values(|line: StatusLine| line@)
}

/// What a scan found so far, in numbers.
pub open spec fn counts(summary: ScanSummary, elapsed_ms: u128) -> Seq<char> {
    decimal(summary.entries as nat) + " entries, "@ + decimal(summary.files as nat) + " files, "@
        + decimal(summary.directories as nat) + " directories, "@ + decimal(
        summary.inaccessible as nat,
    ) + " inaccessible, "@ + decimal(elapsed_ms as nat) + " ms"@
}

fn push_counts(out: &mut String, summary: ScanSummary, elapsed_ms: u128)
    ensures
        final(out)@ == old(out)@ + counts(summary, elapsed_ms),
{
    let ghost before = out@;
    push_decimal(out, summary.entries as u128);
    push_text(out, " entries, ");
    push_decimal(out, summary.files as u128);
    push_text(out, " files, ");
    let ghost first = decimal(summary.entries as nat) + " entries, "@ + decimal(summary.files as nat)
        + " files, "@;
    assert(out@ =~= before + first);
    push_decimal(out, summary.directories as u128);
    push_text(out, " directories, ");
    push_decimal(out, summary.inaccessible as u128);
    push_text(out, " inaccessible, ");
    let ghost second = first + decimal(summary.directories as nat) + " directories, "@ + decimal(
        summary.inaccessible as nat,
    ) + " inaccessible, "@;
    assert(out@ =~= before + second);
    push_decimal(out, elapsed_ms);
    push_text(out, " ms");
    assert(out@ =~= before + (second + decimal(elapsed_ms as nat) + " ms"@));
}

/// The lines of the status.
pub open spec fn status_of(state: UiState) -> Seq<LineView> {
    match state {
        UiState::Idle => seq![LineView { text: "See your disk clearly."@, tone: Tone::Plain }],
        UiState::Scanning(Some(progress)) => seq![
            LineView {
                text: "Scanning: "@ + counts(progress.summary, progress.elapsed_ms),
                tone: Tone::Plain,
            },
        ],
        UiState::Scanning(None) => seq![LineView { text: "Scanning"@, tone: Tone::Plain }],
        UiState::Complete(result) => {
            let found = LineView {
                text: counts(result.summary, result.elapsed_ms) + ", "@ + result.scanner_label@,
                tone: Tone::Plain,
            };
            match result.fallback_reason {
                Some(reason) => seq![
                    found,
                    LineView { text: "Fallback: "@ + reason@, tone: Tone::Warning },
                ],
                None => seq![found],
            }
        },
        UiState::Error(error) => seq![LineView { text: error@, tone: Tone::Error }],
    }
}

impl DiskLoomApp {
    /// The lines of the status; see [`status_of`].
    #[must_use]
    pub fn status_lines(&self) -> (r: Vec<StatusLine>)
        ensures
            lines_view(r@) == status_of(self.state),
    {
        let mut lines: Vec<StatusLine> = Vec::new();
        match &self.state {
            UiState::Idle => {
                lines.push(
                    StatusLine { text: "See your disk clearly.".to_owned(), tone: Tone::Plain },
                );
            },
            UiState::Scanning(Some(progress)) => {
                let mut text = "Scanning: ".to_owned();
                push_counts(&mut text, progress.summary, progress.elapsed_ms);
                lines.push(StatusLine { text, tone: Tone::Plain });
            },
            UiState::Scanning(None) => {
                lines.push(StatusLine { text: "Scanning".to_owned(), tone: Tone::Plain });
            },
            UiState::Complete(result) => {
                let mut text = String::new();
                push_counts(&mut text, result.summary, result.elapsed_ms);
                assert(text@ =~= counts(result.summary, result.elapsed_ms));
                push_text(&mut text, ", ");
                push_text(&mut text, result.scanner_label);
                lines.push(StatusLine { text, tone: Tone::Plain });
                if let Some(reason) = &result.fallback_reason {
                    let mut text = "Fallback: ".to_owned();
                    push_text(&mut text, reason);
                    lines.push(StatusLine { text, tone: Tone::Warning });
                }
            },
            UiState::Error(error) => {
                lines.push(StatusLine { text: error.as_str().to_owned(), tone: Tone::Error });
            },
        }
        assert(lines_view(lines@) =~= status_of(self.state));
        lines
    }

    /// What stands above the view of a scan; nothing where there is nothing to view.
    #[must_use]
    pub fn caption(&self) -> (r: Option<String>)
        ensures
            text_view(r) == caption_of(*self),
    {
        match &self.state {
            UiState::Complete(result) => match self.active_tab {
                ActiveTab::Tree => {
                    let mut text = "Showing ".to_owned();
                    push_decimal(&mut text, result.tree_rows.len() as u128);
                    push_text(&mut text, " of ");
                    push_decimal(&mut text, result.graph.len() as u128);
                    push_text(&mut text, " entries");
                    Some(text)
                },
                ActiveTab::Files => match &self.view_cache {
                    Some(cache) => {
                        let mut text = String::new();
                        push_decimal(&mut text, cache.found.matched as u128);
                        assert(text@ =~= decimal(cache.found.matched as nat));
                        push_text(&mut text, " of ");
                        push_decimal(&mut text, result.graph.len() as u128);
                        push_text(&mut text, " entries");
                        Some(text)
                    },
                    None => None,
                },
                ActiveTab::Duplicates => {
                    let mut text = String::new();
                    push_decimal(&mut text, result.duplicate_groups.len() as u128);
                    assert(text@ =~= decimal(result.duplicate_groups@.len()));
                    push_text(&mut text, " duplicate candidate groups");
                    Some(text)
                },
                _ => None,
            },
            _ => None,
        }
    }
}

/// What stands above the view of a scan: how much of it is shown.
pub open spec fn caption_of(app: DiskLoomApp) -> Option<Seq<char>> {
    match app.state {
        UiState::Complete(result) => match app.active_tab {
            ActiveTab::Tree => Some(
                "Showing "@ + decimal(result.tree_rows@.len()) + " of "@ + decimal(
                    result.graph@.len(),
                ) + " entries"@,
            ),
            ActiveTab::Files => match app.view_cache {
                Some(cache) => Some(
                    decimal(cache.found.matched as nat) + " of "@ + decimal(result.graph@.len())
                        + " entries"@,
                ),
                None => None,
            },
            ActiveTab::Duplicates => Some(
                decimal(result.duplicate_groups@.len()) + " duplicate candidate groups"@,
            ),
            _ => None,
        },
        _ => None,
    }
}

/// How far the name of a row of the tree is set in, in points.
pub open spec fn indentation(depth: nat) -> nat {
    if depth * 14 < 180 {
        depth * 14
    } else {
        180
    }
}

/// How far the name of a row of the tree is set in, in points.
#[must_use]
pub fn name_indent(depth: usize) -> (r: u32)
    ensures
        r == indentation(depth as nat),
{
    if depth < 13 {
        (depth * 14) as u32
    } else {
        180
    }
}

// ---------------------------------------------------------------------------------------------
// The filter fields
// ---------------------------------------------------------------------------------------------

/// A field of the filter that is typed into.
#[derive(Debug, Clone, Copy, PartialEq, Eq, Structural)]
pub enum FilterField {
    Name,
    Extension,
    Path,
    MinSize,
    MaxSize,
    MinAllocated,
    MaxAllocated,
    ModifiedAfter,
    ModifiedBefore,
}

/// A choice of the filter.
#[derive(Debug, Clone, Copy, PartialEq, Eq, Structural)]
pub enum FilterFlag {
    Regex,
    IncludeDirectories,
}

/// What stands on the window for the filter.
#[derive(Debug, Clone, Copy)]
pub enum FilterControl {
    Text { label: &'static str, field: FilterField, width: u32 },
    Check { label: &'static str, flag: FilterFlag },
}

/// What stands on the window for the filter.
pub enum ControlView {
    Text { label: Seq<char>, field: FilterField, width: u32 },
    Check { label: Seq<char>, flag: FilterFlag },
}

impl View for FilterControl {
    type V = ControlView;

    open spec fn view(&self) -> ControlView {
        match *self {
            FilterControl::Text { label, field, width } => ControlView::Text {
                label: label@,
                field,
                width,
            },
            FilterControl::Check { label, flag } => ControlView::Check { label: label@, flag },
        }
    }
}

/// What stands on a row of the window.
pub open spec fn controls_view(controls: Seq<FilterControl>) -> Seq<ControlView> {
    controls.map_values(|control: FilterControl| control@)
}

/// The first row of the filter: what names and paths are sought.
#[must_use]
pub fn search_controls() -> (r: Vec<FilterControl>)
    ensures
        controls_view(r@) == seq![
            (ControlView::Text { label: "Search"@, field: FilterField::Name, width: 180 }),
            (ControlView::Check { label: "Regex"@, flag: FilterFlag::Regex }),
            (ControlView::Text { label: "Ext"@, field: FilterField::Extension, width: 80 }),
            (ControlView::Text { label: "Path"@, field: FilterField::Path, width: 180 }),
        ],
{
    let r: Vec<FilterControl> = vec![
        FilterControl::Text { label: "Search", field: FilterField::Name, width: 180 },
        FilterControl::Check { label: "Regex", flag: FilterFlag::Regex },
        FilterControl::Text { label: "Ext", field: FilterField::Extension, width: 80 },
        FilterControl::Text { label: "Path", field: FilterField::Path, width: 180 },
    ];
    assert(controls_view(r@) =~= seq![
        ControlView::Text { label: "Search"@, field: FilterField::Name, width: 180 },
        ControlView::Check { label: "Regex"@, flag: FilterFlag::Regex },
        ControlView::Text { label: "Ext"@, field: FilterField::Extension, width: 80 },
        ControlView::Text { label: "Path"@, field: FilterField::Path, width: 180 },
    ]);
    r
}

/// The second row of the filter: what sizes are sought.
#[must_use]
pub fn size_controls() -> (r: Vec<FilterControl>)
    ensures
        controls_view(r@) == seq![
            (ControlView::Text { label: "Min size"@, field: FilterField::MinSize, width: 96 }),
            (ControlView::Text { label: "Max size"@, field: FilterField::MaxSize, width: 96 }),
            (ControlView::Text {
                label: "Min allocated"@,
                field: FilterField::MinAllocated,
                width: 96,
            }),
            (ControlView::Text {
                label: "Max allocated"@,
                field: FilterField::MaxAllocated,
                width: 96,
            }),
            (ControlView::Check { label: "Dirs"@, flag: FilterFlag::IncludeDirectories }),
        ],
{
    let r: Vec<FilterControl> = vec![
        FilterControl::Text { label: "Min size", field: FilterField::MinSize, width: 96 },
        FilterControl::Text { label: "Max size", field: FilterField::MaxSize, width: 96 },
        FilterControl::Text { label: "Min allocated", field: FilterField::MinAllocated, width: 96 },
        FilterControl::Text { label: "Max allocated", field: FilterField::MaxAllocated, width: 96 },
        FilterControl::Check { label: "Dirs", flag: FilterFlag::IncludeDirectories },
    ];
    assert(controls_view(r@) =~= seq![
        ControlView::Text { label: "Min size"@, field: FilterField::MinSize, width: 96 },
        ControlView::Text { label: "Max size"@, field: FilterField::MaxSize, width: 96 },
        ControlView::Text { label: "Min allocated"@, field: FilterField::MinAllocated, width: 96 },
        ControlView::Text { label: "Max allocated"@, field: FilterField::MaxAllocated, width: 96 },
        ControlView::Check { label: "Dirs"@, flag: FilterFlag::IncludeDirectories },
    ]);
    r
}

/// The third row of the filter: what times are sought.
#[must_use]
pub fn time_controls() -> (r: Vec<FilterControl>)
    ensures
        controls_view(r@) == seq![
            (ControlView::Text {
                label: "Modified after"@,
                field: FilterField::ModifiedAfter,
                width: 120,
            }),
            (ControlView::Text {
                label: "Modified before"@,
                field: FilterField::ModifiedBefore,
                width: 120,
            }),
        ],
{
    let r: Vec<FilterControl> = vec![
        FilterControl::Text {
            label: "Modified after",
            field: FilterField::ModifiedAfter,
            width: 120,
        },
        FilterControl::Text {
            label: "Modified before",
            field: FilterField::ModifiedBefore,
            width: 120,
        },
    ];
    assert(controls_view(r@) =~= seq![
        ControlView::Text {
            label: "Modified after"@,
            field: FilterField::ModifiedAfter,
            width: 120,
        },
        ControlView::Text {
            label: "Modified before"@,
            field: FilterField::ModifiedBefore,
            width: 120,
        },
    ]);
    r
}

/// What stands in a field.
pub open spec fn field_of(inputs: InputsView, field: FilterField) -> Seq<char> {
    match field {
        FilterField::Name => inputs.name,
        FilterField::Extension => inputs.extension,
        FilterField::Path => inputs.path,
        FilterField::MinSize => inputs.min_size,
        FilterField::MaxSize => inputs.max_size,
        FilterField::MinAllocated => inputs.min_allocated,
        FilterField::MaxAllocated => inputs.max_allocated,
        FilterField::ModifiedAfter => inputs.modified_after,
        FilterField::ModifiedBefore => inputs.modified_before,
    }
}

/// The fields once something else was typed into one of them.
pub open spec fn typed(inputs: InputsView, field: FilterField, text: Seq<char>) -> InputsView {
    match field {
        FilterField::Name => InputsView { name: text, ..inputs },
        FilterField::Extension => InputsView { extension: text, ..inputs },
        FilterField::Path => InputsView { path: text, ..inputs },
        FilterField::MinSize => InputsView { min_size: text, ..inputs },
        FilterField::MaxSize => InputsView { max_size: text, ..inputs },
        FilterField::MinAllocated => InputsView { min_allocated: text, ..inputs },
        FilterField::MaxAllocated => InputsView { max_allocated: text, ..inputs },
        FilterField::ModifiedAfter => InputsView { modified_after: text, ..inputs },
        FilterField::ModifiedBefore => InputsView { modified_before: text, ..inputs },
    }
}

/// What was typed into a field stands in it, and every other field keeps what stands in it.
pub proof fn fields_are_apart(inputs: InputsView, field: FilterField, text: Seq<char>, other: FilterField)
    ensures
        field_of(typed(inputs, field, text), field) == text,
        other != field ==> field_of(typed(inputs, field, text), other) == field_of(inputs, other),
{
}

impl FilterInputs {
    /// What stands in a field.
    #[must_use]
    pub fn field(&self, field: FilterField) -> (r: &String)
        ensures
            r@ == field_of(self@, field),
    {
        match field {
            FilterField::Name => &self.name,
            FilterField::Extension => &self.extension,
            FilterField::Path => &self.path,
            FilterField::MinSize => &self.min_size,
            FilterField::MaxSize => &self.max_size,
            FilterField::MinAllocated => &self.min_allocated,
            FilterField::MaxAllocated => &self.max_allocated,
            FilterField::ModifiedAfter => &self.modified_after,
            FilterField::ModifiedBefore => &self.modified_before,
        }
    }

    /// Types into a field.
    pub fn set_field(&mut self, field: FilterField, text: String)
        ensures
            final(self)@ == typed(old(self)@, field, text@),
    {
        match field {
            FilterField::Name => {
                self.name = text;
            },
            FilterField::Extension => {
                self.extension = text;
            },
            FilterField::Path => {
                self.path = text;
            },
            FilterField::MinSize => {
                self.min_size = text;
            },
            FilterField::MaxSize => {
                self.max_size = text;
            },
            FilterField::MinAllocated => {
                self.min_allocated = text;
            },
            FilterField::MaxAllocated => {
                self.max_allocated = text;
            },
            FilterField::ModifiedAfter => {
                self.modified_after = text;
            },
            FilterField::ModifiedBefore => {
                self.modified_before = text;
            },
        }
    }
}

// ---------------------------------------------------------------------------------------------
// Laws
// ---------------------------------------------------------------------------------------------

/// A file that is renamed stays in its directory, and gets the name that was typed, without the white
/// space around it.
pub proof fn a_renamed_file_stays_in_its_directory(
    app: AppView,
    directory: Seq<char>,
    name: Seq<char>,
    before: Seq<char>,
    target: Seq<char>,
    after: Seq<char>,
)
    requires
        directory.len() > prefix_len(directory),
        behind_prefix(directory) == path_body(directory),
        tidied(directory) == directory,
        !is_bare_server(directory),
        is_plain_name(name),
        is_plain_name(target),
        !is_white_space_spec(target[0]),
        !is_white_space_spec(target.last()),
        all_white(before),
        all_white(after),
        app.selected_path == Some(join_path(directory, name)),
        app.rename_target == before + target + after,
    ensures
        renaming(app) matches Some(Ok(paths)) && {
            &&& paths.0 == join_path(directory, name)
            &&& parent_spec(paths.1) == Some(directory)
            &&& file_name_spec(paths.1) == Some(target)
        },
{
    trimming_leaves_the_text(before, target, after);
    join_then_split(directory, name);
    join_then_split(directory, target);
}

/// Nothing is renamed where nothing is selected, and nothing to a name of white space alone.
pub proof fn a_file_is_not_renamed_to_nothing(app: AppView)
    ensures
        app.selected_path is None ==> renaming(app) is None,
        app.selected_path is Some && all_white(app.rename_target) ==> (renaming(app) matches Some(
            answer,
        ) && answer is Err),
{
    if all_white(app.rename_target) {
        trimming_leaves_the_text(app.rename_target, Seq::empty(), Seq::empty());
        assert(app.rename_target + Seq::<char>::empty() + Seq::<char>::empty() =~= app.rename_target);
    }
}

proof fn lemma_pair_reads(number: nat, word: Seq<char>, rest: Seq<char>, text: Seq<char>)
    requires
        !word.contains(' '),
        word.len() > 0,
        rest.len() > 0,
        rest[0] != ' ',
        text == decimal(number) + (seq![' '] + word + seq![' ']) + rest,
    ensures
        spelled(first_word(text), false) == Some(number as int),
        behind_word(behind_word(text)) == rest,
        text.len() > 0,
        text[0] != ' ',
{
    lemma_no_space(number);
    decimal_reads_back(number);
    let more = word + seq![' '] + rest;
    assert(text =~= decimal(number) + seq![' '] + more);
    assert(more[0] == word[0]);
    assert(word.contains(word[0]));
    lemma_word_reads(decimal(number), more);
    lemma_word_reads(word, rest);
    assert(text[0] == decimal(number)[0]);
}

/// What a scan found reads back: how many entries, files and directories there are, how much could not
/// be read, and how many milliseconds it took.
pub proof fn counts_read_back(summary: ScanSummary, elapsed_ms: u128)
    ensures
        ({
            let text = counts(summary, elapsed_ms);
            let files = behind_word(behind_word(text));
            let directories = behind_word(behind_word(files));
            let missed = behind_word(behind_word(directories));
            let time = behind_word(behind_word(missed));
            &&& spelled(first_word(text), false) == Some(summary.entries as int)
            &&& spelled(first_word(files), false) == Some(summary.files as int)
            &&& spelled(first_word(directories), false) == Some(summary.directories as int)
            &&& spelled(first_word(missed), false) == Some(summary.inaccessible as int)
            &&& spelled(first_word(time), false) == Some(elapsed_ms as int)
        }),
{
    let p = seq!['e', 'n', 't', 'r', 'i', 'e', 's', ','];
    let q = seq!['f', 'i', 'l', 'e', 's', ','];
    let r = seq!['d', 'i', 'r', 'e', 'c', 't', 'o', 'r', 'i', 'e', 's', ','];
    let s = seq!['i', 'n', 'a', 'c', 'c', 'e', 's', 's', 'i', 'b', 'l', 'e', ','];
    let t = seq!['m', 's'];
    assert(" entries, "@ =~= seq![' '] + p + seq![' ']) by {
        reveal_strlit(" entries, ");
    }
    assert(" files, "@ =~= seq![' '] + q + seq![' ']) by {
        reveal_strlit(" files, ");
    }
    assert(" directories, "@ =~= seq![' '] + r + seq![' ']) by {
        reveal_strlit(" directories, ");
    }
    assert(" inaccessible, "@ =~= seq![' '] + s + seq![' ']) by {
        reveal_strlit(" inaccessible, ");
    }
    assert(" ms"@ =~= seq![' '] + t) by {
        reveal_strlit(" ms");
    }
    assert(!p.contains(' ') && !q.contains(' ') && !r.contains(' ') && !s.contains(' '));
    let time = decimal(elapsed_ms as nat) + " ms"@;
    let missed = decimal(summary.inaccessible as nat) + " inaccessible, "@ + time;
    let directories = decimal(summary.directories as nat) + " directories, "@ + missed;
    let files = decimal(summary.files as nat) + " files, "@ + directories;
    let text = counts(summary, elapsed_ms);
    assert(text =~= decimal(summary.entries as nat) + " entries, "@ + files);
    lemma_no_space(elapsed_ms as nat);
    decimal_reads_back(elapsed_ms as nat);
    assert(time =~= decimal(elapsed_ms as nat) + seq![' '] + t);
    lemma_word_reads(decimal(elapsed_ms as nat), t);
    assert(time[0] == decimal(elapsed_ms as nat)[0]);
    lemma_pair_reads(summary.inaccessible as nat, s, time, missed);
    lemma_pair_reads(summary.directories as nat, r, missed, directories);
    lemma_pair_reads(summary.files as nat, q, directories, files);
    lemma_pair_reads(summary.entries as nat, p, files, text);
}

/// A deeper row is set in no less than one above it, by as much for each step as for any other until
/// there is no room to set it in further.
pub proof fn deeper_rows_are_set_in_further(depth: nat)
    ensures
        indentation(0) == 0,
        indentation(depth) <= indentation(depth + 1) <= 180,
        indentation(depth + 1) < 180 ==> indentation(depth + 1) == indentation(depth) + 14,
{
}

} // verus!
