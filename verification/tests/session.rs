//! The main window: its state, its rows, and the scans it keeps.

use std::sync::Arc;

use diskloom::command::ScanStep;
use diskloom::graph::{EntryId, EntryFlags, EntryMetadata, FileGraph, FileGraphBuilder, FileKind};
use diskloom::scan::{
    scan_summary_from_ntfs_progress, FallbackScanner, ScanControl, ScanError, ScanOptions,
    ScanSummary,
};
use diskloom::scanner::NtfsScanProgress;
use diskloom::session::{
    apply_scan_complete, apply_scan_error, cache_current_scan, command_target_path,
    deletion_failure, display_path, ensure_sort, get_visible_rows, invalidate_scan_cache,
    needs_long_name, select_entry, selected_entry_path, selected_path_from_state,
    set_display_path, start_scan, take_cached_scan, toggle_entry, viewport_from_state, AppState,
    ScanOutcome, ScanStart, MAX_SCAN_CACHE_ITEMS,
};
use diskloom::startup::{
    elevated_scan_args, elevation_step, get_startup, native_startup, parse_startup_args,
    parse_ui_startup_args, relaunch_answer, relaunch_at_startup, scan_needs_elevation, scan_plan,
    startup_words, ui_scan_needs_elevation, ui_scan_plan, ElevationAnswer, ElevationStep,
    UiScannerMode,
};
use diskloom::targets::ScannerMode;
use diskloom::tree::{SortSpec, TreeIndex};
use diskloom::viewport::{
    contains_case_insensitive, normalized_limit, normalized_query, TreeRow, DEFAULT_ROW_LIMIT,
    MAX_ROW_LIMIT,
};

fn sample_graph() -> FileGraph {
    let mut builder = FileGraphBuilder::new();
    let root = builder
        .add_entry(None, "C:\\", FileKind::Directory, 0, 0, 0)
        .unwrap();
    let big = builder
        .add_entry(Some(root), "big", FileKind::Directory, 0, 0, 0)
        .unwrap();
    builder
        .add_entry(Some(big), "large.bin", FileKind::File, 100, 128, 0)
        .unwrap();
    builder
        .add_entry(Some(root), "small.bin", FileKind::File, 10, 16, 0)
        .unwrap();
    builder.finish()
}

fn words(words: &[&str]) -> Vec<String> {
    words.iter().map(|word| (*word).to_owned()).collect()
}

#[test]
fn startup_args_should_parse_elevated_scan_request() {
    let args = parse_startup_args(&words(&["--path", "C:\\", "--scanner", "ntfs", "--scan"]));

    assert_eq!(args.path.as_deref(), Some("C:\\"));
    assert_eq!(args.scanner, ScannerMode::Ntfs);
    assert!(args.scan);
}

#[test]
fn parse_startup_args_should_handle_scan_options() {
    let args = parse_ui_startup_args(&words(&["--path", "C:\\", "--scanner", "ntfs", "--scan"]));

    assert_eq!(args.path.as_deref(), Some("C:\\"));
    assert_eq!(args.scanner_mode, UiScannerMode::Ntfs);
    assert!(args.scan);
}

#[test]
fn a_path_may_stand_alone() {
    let args = parse_startup_args(&words(&["-x", "D:\\data", "other", "--scanner", "nonsense"]));
    assert_eq!(args.path.as_deref(), Some("D:\\data"));
    assert_eq!(args.scanner, ScannerMode::Auto);
    assert!(!args.scan);

    let args = parse_startup_args(&words(&["D:\\data", "--path"]));
    assert_eq!(args.path, None);

    let args = parse_ui_startup_args(&words(&["--scanner", "FALLBACK", "--scanner", "nonsense"]));
    assert_eq!(args.scanner_mode, UiScannerMode::Fallback);

    let native = native_startup("C:\\", &words(&["D:\\data", "--path", "E:\\", "--path"]));
    assert_eq!(native.initial_path, "E:\\");
    let native = native_startup("C:\\", &words(&["D:\\data", "--scan"]));
    assert_eq!(native.initial_path, "C:\\");
    assert!(native.start_on_launch);
    assert_eq!(startup_words(&words(&["--path", "--scan"])).len(), 1);
}

#[test]
fn a_program_that_is_started_anew_understands_its_arguments() {
    let args = parse_ui_startup_args(&elevated_scan_args("C:\\", UiScannerMode::Fallback));

    assert_eq!(args.path.as_deref(), Some("C:\\"));
    assert_eq!(args.scanner_mode, UiScannerMode::Fallback);
    assert!(args.scan);
}

#[test]
fn a_window_starts_with_a_path_where_there_is_one() {
    let named = parse_startup_args(&words(&["D:\\", "--scanner", "ntfs"]));
    let startup = get_startup(&named, Some("C:"), &Vec::new(), Some(true));
    assert_eq!(startup.path.as_deref(), Some("D:\\"));
    assert_eq!(startup.scanner, "ntfs");
    assert!(startup.scan);
    assert!(startup.elevated);

    let bare = parse_startup_args(&Vec::new());
    let startup = get_startup(&bare, Some("C:"), &Vec::new(), None);
    assert_eq!(startup.path.as_deref(), Some("C:\\"));
    assert!(!startup.elevated);
    assert!(!get_startup(&bare, None, &Vec::new(), Some(false)).scan);
}

#[test]
fn scanners_are_known_by_name_and_place() {
    for mode in [UiScannerMode::Auto, UiScannerMode::Ntfs, UiScannerMode::Fallback] {
        assert_eq!(UiScannerMode::from_index(mode.index()), mode);
        assert_eq!(UiScannerMode::from_arg(mode.arg_value()), Some(mode));
    }
    assert_eq!(UiScannerMode::from_index(-7), UiScannerMode::Auto);
    assert_eq!(UiScannerMode::from_arg("x"), None);
    assert_eq!(UiScannerMode::Ntfs.label(), "NTFS");
    assert_eq!(ScannerMode::parse("NTFS"), ScannerMode::Ntfs);
    assert_eq!(ScannerMode::parse("x"), ScannerMode::Auto);
    assert_eq!(ScannerMode::Fallback.as_str(), "fallback");
}

#[test]
fn scan_needs_elevation_should_match_direct_drive_scans_only() {
    assert!(scan_needs_elevation("C:\\", ScannerMode::Auto));
    assert!(scan_needs_elevation("C:\\", ScannerMode::Ntfs));
    assert!(!scan_needs_elevation("C:\\", ScannerMode::Fallback));
    assert!(!scan_needs_elevation("C:\\Users", ScannerMode::Auto));
}

#[test]
fn native_ui_scan_needs_elevation_should_match_direct_drive_scans_only() {
    assert!(ui_scan_needs_elevation("C:\\", UiScannerMode::Auto));
    assert!(ui_scan_needs_elevation("C:\\", UiScannerMode::Ntfs));
    assert!(!ui_scan_needs_elevation("C:\\", UiScannerMode::Fallback));
    assert!(!ui_scan_needs_elevation("C:\\Users", UiScannerMode::Auto));
}

#[test]
fn slint_app_ui_scan_needs_elevation_should_match_direct_drive_scans_only() {
    assert!(ui_scan_needs_elevation("C:\\", UiScannerMode::Auto));
    assert!(ui_scan_needs_elevation("C:\\", UiScannerMode::Ntfs));
    assert!(!ui_scan_needs_elevation("C:\\", UiScannerMode::Fallback));
    assert!(!ui_scan_needs_elevation("C:\\Users", UiScannerMode::Auto));
}

#[test]
fn rights_are_asked_for_only_where_they_matter() {
    let mode = UiScannerMode::Auto;
    assert!(matches!(elevation_step("C:\\x", mode, Err("?")), ElevationStep::Stay));
    assert!(matches!(elevation_step("C:\\", mode, Ok(true)), ElevationStep::Stay));
    match elevation_step("C:\\", mode, Ok(false)) {
        ElevationStep::Relaunch(args) => {
            assert_eq!(args, ["--path", "C:\\", "--scanner", "auto", "--scan"]);
        }
        _ => panic!("the scan needs rights"),
    }
    match elevation_step("C:\\", mode, Err("no token")) {
        ElevationStep::Fail(message) => {
            assert_eq!(message, "failed to check administrator elevation: no token");
        }
        _ => panic!("the rights are not known"),
    }
    assert!(matches!(relaunch_answer(Ok(())), ElevationAnswer::Requested));
    match relaunch_answer(Err("denied")) {
        ElevationAnswer::Failed(message) => {
            assert_eq!(message, "failed to request administrator access: denied");
        }
        _ => panic!("the request failed"),
    }
    assert!(relaunch_at_startup(false, Some(false)));
    assert!(!relaunch_at_startup(true, Some(false)));
    assert!(!relaunch_at_startup(false, Some(true)));
    assert!(!relaunch_at_startup(false, None));
}

#[test]
fn scans_are_planned() {
    let plan = scan_plan("c:\\Users", ScannerMode::Auto);
    assert_eq!(plan.step, ScanStep::ReadVolumeOrTraverse);
    assert_eq!(plan.volume.as_deref(), Some("C:"));
    assert_eq!(plan.display_root.as_deref(), Some("c:\\Users"));
    let plan = scan_plan("c:\\", ScannerMode::Auto);
    assert_eq!(plan.display_root, None);
    let plan = scan_plan("folder", ScannerMode::Auto);
    assert_eq!(plan.step, ScanStep::Traverse);
    assert_eq!(plan.volume, None);
    let plan = scan_plan("folder", ScannerMode::Ntfs);
    assert_eq!(plan.step, ScanStep::ReadVolume);
    assert_eq!(plan.volume.as_deref(), Some("folder"));
    assert_eq!(scan_plan("c:\\", ScannerMode::Fallback).step, ScanStep::Traverse);

    let plan = ui_scan_plan("c:\\Users", UiScannerMode::Auto);
    assert_eq!(plan.step, ScanStep::Traverse);
    let plan = ui_scan_plan("c:\\", UiScannerMode::Auto);
    assert_eq!(plan.step, ScanStep::ReadVolumeOrTraverse);
    assert_eq!(plan.volume.as_deref(), Some("C:"));
    assert_eq!(ui_scan_plan("c:\\", UiScannerMode::Ntfs).step, ScanStep::ReadVolume);
}

#[test]
fn viewport_should_return_visible_slice_from_expanded_tree() {
    let graph = Arc::new(sample_graph());
    let index = TreeIndex::build(&graph, SortSpec::default());
    let root = index.roots[0];
    let mut state = AppState {
        graph: Some(Arc::clone(&graph)),
        index: Some(index),
        ..AppState::default()
    };
    state.expanded.insert(root);

    let viewport = viewport_from_state(&state, 1, 2, None);

    assert_eq!(viewport.total, 3);
    assert_eq!(viewport.rows.len(), 2);
    assert_eq!(viewport.rows[0].name, "big");
}

#[test]
fn viewport_query_should_search_all_descendants() {
    let graph = Arc::new(sample_graph());
    let index = TreeIndex::build(&graph, SortSpec::default());
    let state = AppState {
        graph: Some(Arc::clone(&graph)),
        index: Some(index),
        ..AppState::default()
    };

    let viewport = viewport_from_state(&state, 0, 10, Some("large"));

    assert_eq!(viewport.total, 1);
    assert_eq!(viewport.rows[0].name, "large.bin");
}

#[test]
fn a_search_does_not_mind_what_is_expanded() {
    let graph = Arc::new(sample_graph());
    let closed = AppState {
        graph: Some(Arc::clone(&graph)),
        index: Some(TreeIndex::build(&graph, SortSpec::default())),
        ..AppState::default()
    };
    let mut open = AppState {
        graph: Some(Arc::clone(&graph)),
        index: Some(TreeIndex::build(&graph, SortSpec::default())),
        ..AppState::default()
    };
    open.expanded.reset_to(&graph.ids());

    for query in ["large", "bin", "o", "nothing"] {
        let with_all = viewport_from_state(&open, 0, 100, Some(query));
        let with_none = viewport_from_state(&closed, 0, 100, Some(query));
        let ids = |rows: &[TreeRow]| rows.iter().map(|row| row.id).collect::<Vec<_>>();
        assert_eq!(ids(&with_all.rows), ids(&with_none.rows));
    }
}

#[test]
fn pages_follow_each_other() {
    let graph = Arc::new(sample_graph());
    let mut state = AppState {
        graph: Some(Arc::clone(&graph)),
        index: Some(TreeIndex::build(&graph, SortSpec::default())),
        ..AppState::default()
    };
    state.expanded.reset_to(&graph.ids());

    let whole = viewport_from_state(&state, 0, 100, None);
    assert_eq!(whole.total, graph.len());
    let mut paged = Vec::new();
    for offset in 0..whole.total {
        for row in viewport_from_state(&state, offset, 1, None).rows {
            paged.push(row.id);
        }
    }
    let ids: Vec<u32> = whole.rows.iter().map(|row| row.id).collect();
    assert_eq!(paged, ids);
}

#[test]
fn normalized_limit_should_bound_tree_slices() {
    assert_eq!(normalized_limit(None), DEFAULT_ROW_LIMIT);
    assert_eq!(normalized_limit(Some(0)), 1);
    assert_eq!(normalized_limit(Some(10_000)), MAX_ROW_LIMIT);
}

#[test]
fn queries_are_found_in_any_case() {
    assert_eq!(normalized_query(Some("  ÄRGER ")).as_deref(), Some("ärger"));
    assert_eq!(normalized_query(Some("  ")), None);
    assert_eq!(normalized_query(None), None);
    assert!(contains_case_insensitive("Großer ÄRGER", "ärger"));
    assert!(contains_case_insensitive("LARGE.bin", "large"));
    assert!(!contains_case_insensitive("a", "ab"));
}

#[test]
fn tree_index_should_sort_children_by_total_size() {
    let graph = sample_graph();
    let root = graph.ids()[0];

    let index = TreeIndex::build_by_total_size(&graph);
    let children = index.children(root);

    assert_eq!(graph.name(children[0]), Some("big"));
    assert_eq!(graph.name(children[1]), Some("small.bin"));
    assert_eq!(index.child_count(root), 2);
    assert_eq!(index.child_count(EntryId(99)), 0);
    assert!(index.children(EntryId(99)).is_empty());
}

fn outcome(display_root: Option<&str>) -> ScanOutcome {
    ScanOutcome {
        graph: sample_graph(),
        summary: ScanSummary {
            entries: 4,
            inaccessible: 1,
            directories: 2,
            files: 2,
        },
        scanner_label: "direct NTFS MFT",
        fallback_reason: Some("why".to_owned()),
        display_root: display_root.map(str::to_owned),
    }
}

fn scanned(state: &mut AppState, path: &str) {
    match start_scan(state, path, None) {
        Ok(ScanStart::Started { path_key, .. }) => {
            apply_scan_complete(state, outcome(None), 5, path_key);
        }
        other => panic!("the path was not scanned: {other:?}"),
    }
}

#[test]
fn a_scan_is_shown_from_the_path_that_was_asked_for() {
    let mut state = AppState::default();
    let complete = apply_scan_complete(&mut state, outcome(Some("c:\\BIG")), 7, "c:\\big".to_owned());

    assert_eq!(complete.size_bytes, 100);
    assert_eq!(complete.allocated_bytes, 128);
    assert_eq!(complete.entries, 4);
    assert_eq!(complete.inaccessible, 1);
    assert_eq!(complete.elapsed_ms, 7);
    assert_eq!(complete.fallback_reason.as_deref(), Some("why"));
    let viewport = viewport_from_state(&state, 0, 10, None);
    assert_eq!(viewport.total, 2);
    assert_eq!(viewport.rows[0].name, "big");
    assert!(viewport.rows[0].expanded);
    assert_eq!(viewport.rows[1].depth, 1);
}

#[test]
fn a_scan_that_was_left_comes_back() {
    let mut state = AppState::default();
    scanned(&mut state, "C:\\");
    scanned(&mut state, "D:\\");
    assert_eq!(state.current_path_key.as_deref(), Some("d:"));
    assert_eq!(state.cache.len(), 1);

    match start_scan(&mut state, " c:\\ ", Some(false)).unwrap() {
        ScanStart::Restored { path, complete } => {
            assert_eq!(path, "c:\\");
            assert_eq!(complete.scanner_label, "cached scan");
            assert_eq!(complete.size_bytes, 110);
            assert_eq!(complete.elapsed_ms, 0);
        }
        ScanStart::Started { .. } => panic!("the scan was kept"),
    }
    assert_eq!(state.current_path_key.as_deref(), Some("c:"));
    assert_eq!(state.cache[0].path_key, "d:");
    assert_eq!(viewport_from_state(&state, 0, 10, None).total, 3);
}

#[test]
fn only_so_many_scans_are_kept() {
    let mut state = AppState::default();
    for path in ["C:\\", "D:\\", "E:\\", "F:\\"] {
        scanned(&mut state, path);
    }
    assert_eq!(state.cache.len(), MAX_SCAN_CACHE_ITEMS);
    assert_eq!(state.cache[0].path_key, "e:");
    assert_eq!(state.cache[1].path_key, "d:");
    cache_current_scan(&mut state);
    assert_eq!(state.cache[0].path_key, "f:");
    assert_eq!(state.cache.len(), MAX_SCAN_CACHE_ITEMS);
    assert!(take_cached_scan(&mut state, "c:").is_none());
    assert_eq!(take_cached_scan(&mut state, "e:").unwrap().path_key, "e:");

    invalidate_scan_cache(&mut state);
    assert!(state.cache.is_empty());
}

#[test]
fn a_forced_scan_forgets_the_earlier_one() {
    let mut state = AppState::default();
    scanned(&mut state, "C:\\");
    scanned(&mut state, "D:\\");

    let start = start_scan(&mut state, "C:\\", Some(true)).unwrap();

    assert!(matches!(start, ScanStart::Started { .. }));
    assert!(state.scanning);
    assert!(state.graph.is_none());
    assert_eq!(state.cache.len(), 1);
    assert_eq!(state.cache[0].path_key, "d:");
    assert_eq!(
        start_scan(&mut state, "E:\\", None).unwrap_err(),
        "a scan is already running"
    );
    assert_eq!(
        start_scan(&mut state, "  ", None).unwrap_err(),
        "enter a drive or folder path"
    );
    apply_scan_error(&mut state);
    assert!(!state.scanning);
}

#[test]
fn rows_are_sorted_and_toggled() {
    let mut state = AppState::default();
    scanned(&mut state, "C:\\");

    let viewport = get_visible_rows(&mut state, 0, None, None, Some("name"), Some(true));
    let names: Vec<&str> = viewport.rows.iter().map(|row| row.name.as_str()).collect();
    assert_eq!(names[1..], ["small.bin", "big"]);

    let viewport = toggle_entry(1, 0, None, None, Some("size"), None, &mut state);
    assert_eq!(viewport.total, 4);
    assert_eq!(viewport.rows[2].name, "large.bin");
    let viewport = toggle_entry(1, 0, None, None, Some("size"), None, &mut state);
    assert_eq!(viewport.total, 3);
    let viewport = toggle_entry(3, 0, None, None, None, None, &mut state);
    assert_eq!(viewport.total, 3);
    ensure_sort(&mut state, SortSpec::from_parts(Some("modified"), None));
    assert!(state.sort.descending);
}

#[test]
fn the_root_of_a_scan_is_not_deleted() {
    let mut state = AppState::default();
    assert_eq!(
        selected_entry_path(EntryId(0), &state).unwrap_err(),
        "scan results are not loaded"
    );
    scanned(&mut state, "C:\\");
    assert_eq!(
        selected_entry_path(EntryId(0), &state).unwrap_err(),
        "DiskLoom will not delete the scan root"
    );
    assert_eq!(
        selected_entry_path(EntryId(4), &state).unwrap_err(),
        "selected entry no longer exists"
    );
    assert_eq!(
        selected_entry_path(EntryId(2), &state).unwrap(),
        "C:\\big\\large.bin"
    );
    assert_eq!(command_target_path(Some(" x "), Some(0), &state).unwrap(), "x");
    assert_eq!(command_target_path(None, Some(3), &state).unwrap(), "C:\\small.bin");
    assert_eq!(
        command_target_path(Some("  "), None, &state).unwrap_err(),
        "select an entry or enter a path"
    );
    assert_eq!(selected_path_from_state(&state), None);
    assert_eq!(select_entry(&mut state, EntryId(1)).as_deref(), Some("C:\\big"));
    assert_eq!(select_entry(&mut state, EntryId(9)), None);
    assert_eq!(
        deletion_failure(true, "busy"),
        "failed to permanently delete path: busy"
    );
    assert_eq!(deletion_failure(false, "busy"), "failed to move to Recycle Bin: busy");
}

#[test]
fn short_names_are_shown_in_full() {
    assert!(needs_long_name("C:\\PROGRA~1"));
    assert!(!needs_long_name("C:\\~a\\b"));
    assert_eq!(
        display_path("C:\\PROGRA~1", Some(r"\\?\C:\Program Files")),
        "C:\\Program Files"
    );
    assert_eq!(display_path("C:\\PROGRA~1", None), "C:\\PROGRA~1");
    assert_eq!(display_path("C:\\Programs", Some("D:\\x")), "C:\\Programs");

    let mut state = AppState::default();
    scanned(&mut state, "C:\\");
    let mut viewport = viewport_from_state(&state, 1, 1, None);
    viewport.rows[0].path = "C:\\BIG~1".to_owned();
    set_display_path(&mut viewport.rows[0], Some(r"\\?\C:\bigger"));
    assert_eq!(viewport.rows[0].name, "bigger");
}

#[test]
fn a_traversal_is_recorded() {
    assert!(!ScanOptions::new("C:\\").follow_symlinks);
    let metadata = |kind, size| EntryMetadata {
        kind,
        size,
        allocated: size,
        modified_unix: 0,
        extra_flags: EntryFlags::empty(),
    };
    let mut scanner = FallbackScanner::new(2);
    let root = scanner
        .record(None, "root", metadata(FileKind::Directory, 0))
        .unwrap();
    scanner
        .record(Some(root), "a", metadata(FileKind::File, 3))
        .unwrap();
    scanner.record_inaccessible();
    assert!(scanner.progress().is_some());
    assert_eq!(scanner.heed(ScanControl::Continue), Ok(()));
    assert_eq!(scanner.heed(ScanControl::Cancel), Err(ScanError::Cancelled));
    assert!(matches!(
        scanner.record(Some(EntryId(9)), "b", metadata(FileKind::File, 1)),
        Err(ScanError::Graph(_))
    ));

    let (graph, summary) = scanner.finish();

    assert_eq!(graph.len(), 2);
    assert_eq!(
        summary,
        ScanSummary {
            entries: 2,
            inaccessible: 1,
            directories: 1,
            files: 1
        }
    );
    let summary = scan_summary_from_ntfs_progress(NtfsScanProgress {
        records_read: 9,
        entries: 4,
        files: 3,
        directories: 1,
        skipped: 5,
    });
    assert_eq!(summary.inaccessible, 5);
    assert_eq!(summary.files, 3);
}
