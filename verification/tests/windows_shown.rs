//! The tree window, the desktop window and the native window.

use std::sync::Arc;

use diskloom::desktop::{
    export_done, export_failure, name_indent, search_controls, size_controls, time_controls,
    ActionStatus, ActiveTab, DiskLoomApp, FilterControl, FilterField, FilterFlag, Received,
    ScanMessage, ScanResult, Tone, UiScanProgress, UiState,
};
use diskloom::graph::{EntryId, FileGraph, FileGraphBuilder, FileKind};
use diskloom::inputs::InputError;
use diskloom::native_app::{
    control_enabled, drive_control_id, low_word, NativeAction, NativeApp, NativeMessage,
    NativeResult, NativeState, NativeTab, WindowMessage, IDC_CANCEL, IDC_DRIVE_BASE, IDC_FALLBACK,
    IDC_SCAN, IDC_TAB_FILES, IDC_TAB_TREEMAP, IDC_TAB_TYPES, WM_SCAN_MESSAGE, WM_START_SCAN,
};
use diskloom::native_view::{
    draw, draw_tile, layout_controls, table_rect, visible_rows, COLOR_ERROR, COLOR_PANEL,
    COLOR_TEXT,
};
use diskloom::paint::{inset_rect, rect_xy, rgb, Area, Paint, TextStyle};
use diskloom::scan::ScanSummary;
use diskloom::session::ScanOutcome;
use diskloom::startup::{native_startup, ElevationAnswer, UiScannerMode};
use diskloom::tree::TreeIndex;
use diskloom::tree_window::{
    apply_progress, apply_scan_complete, apply_scan_error, build_visible_rows, entry_id_from_i32,
    on_event, refresh_rows, selected_path_from_state, start_scan, WindowEvent, WindowPanel,
    WindowState,
};
use diskloom::volume::VolumeShortcut;

fn sample_graph() -> FileGraph {
    let mut builder = FileGraphBuilder::new();
    let root = builder
        .add_entry(None, "root", FileKind::Directory, 0, 0, 0)
        .unwrap();
    let big = builder
        .add_entry(Some(root), "big", FileKind::Directory, 0, 0, 0)
        .unwrap();
    builder
        .add_entry(Some(big), "large.bin", FileKind::File, 100, 128, 0)
        .unwrap();
    builder
        .add_entry(Some(root), "small.bin", FileKind::File, 10, 16, 0)
        .unwrap();
    builder.finish()
}

fn outcome() -> ScanOutcome {
    ScanOutcome {
        graph: sample_graph(),
        summary: ScanSummary {
            entries: 4,
            inaccessible: 0,
            directories: 2,
            files: 2,
        },
        scanner_label: "fallback traversal",
        fallback_reason: None,
        display_root: None,
    }
}

#[test]
fn visible_rows_should_expand_only_requested_folders() {
    let graph = Arc::new(sample_graph());
    let root = graph.ids()[0];
    let index = TreeIndex::build_by_total_size(&graph);
    let mut state = WindowState {
        graph: Some(Arc::clone(&graph)),
        index: Some(index),
        ..WindowState::default()
    };
    state.expanded.insert(root);

    let rows = build_visible_rows(&state);
    let names = rows
        .iter()
        .map(|row| row.name.to_string())
        .collect::<Vec<_>>();

    assert_eq!(names, ["root", "big", "small.bin"]);
    assert_eq!(rows[1].indent_px, 18);
    assert_eq!(rows[1].children, "1");
    assert_eq!(rows[1].kind, "folder");
    assert_eq!(rows[1].size, "100 B");
    assert!(rows[1].folder);
    assert!(!rows[2].folder);
    assert_eq!(rows[2].children, "");
    assert_eq!(rows[2].allocated, "16 B");
}

#[test]
fn the_tree_window_goes_through_a_scan() {
    let mut state = WindowState::default();
    let mut panel = WindowPanel::new("C:\\", UiScannerMode::Ntfs);
    assert_eq!(panel.scanner_mode, 1);
    assert_eq!(panel.status_title, "Ready");

    let mode = UiScannerMode::Auto;
    assert_eq!(start_scan(&mut state, &mut panel, " ", mode, ElevationAnswer::NotNeeded), None);
    assert_eq!(panel.status_title, "Path required");
    assert_eq!(start_scan(&mut state, &mut panel, "C:\\", mode, ElevationAnswer::Requested), None);
    assert_eq!(panel.status_title, "Administrator scan requested");
    assert_eq!(
        start_scan(
            &mut state,
            &mut panel,
            "C:\\",
            mode,
            ElevationAnswer::Failed("no".to_owned())
        ),
        None
    );
    assert_eq!(panel.status_detail, "no");
    assert_eq!(
        start_scan(&mut state, &mut panel, " C:\\ ", mode, ElevationAnswer::NotNeeded).as_deref(),
        Some("C:\\")
    );
    assert!(panel.scanning);
    assert_eq!(panel.status_detail, "Scanning C:\\");

    apply_progress(&mut panel, outcome().summary, 1_500);
    assert_eq!(panel.status_detail, "2 files, 2 folders, 0 inaccessible");
    assert_eq!(panel.scan_elapsed, "1500 ms");

    apply_scan_complete(&mut state, &mut panel, outcome(), 12);
    assert!(!panel.scanning);
    assert_eq!(panel.status_title, "Scan complete");
    assert_eq!(panel.scan_size, "110 B");
    assert_eq!(panel.scan_allocated, "144 B");
    assert_eq!(panel.visible_count, "3 visible");
    assert_eq!(panel.rows.len(), 3);

    apply_scan_error(&mut panel, "gone");
    assert_eq!(panel.status_title, "Scan failed");
    refresh_rows(&mut panel, &state);
    assert_eq!(panel.rows.len(), 3);
}

#[test]
fn the_tree_window_follows_its_buttons() {
    let mut state = WindowState::default();
    let mut panel = WindowPanel::new("C:\\", UiScannerMode::Auto);
    apply_scan_complete(&mut state, &mut panel, outcome(), 1);

    on_event(&mut state, &mut panel, WindowEvent::DriveSelected("D:\\".to_owned()));
    assert_eq!(panel.scan_path, "D:\\");
    on_event(&mut state, &mut panel, WindowEvent::ScannerSelected(2));
    assert_eq!(state.scanner_mode, UiScannerMode::Fallback);
    on_event(&mut state, &mut panel, WindowEvent::ScannerSelected(9));
    assert_eq!(panel.scanner_mode, 0);
    on_event(&mut state, &mut panel, WindowEvent::CancelRequested);
    assert_eq!(panel.status_title, "Cancelling");
    on_event(&mut state, &mut panel, WindowEvent::RowSelected(3));
    assert_eq!(panel.selected_path, "root\\small.bin");
    assert!(panel.rows[2].selected);
    on_event(&mut state, &mut panel, WindowEvent::RowSelected(-1));
    assert_eq!(state.selected, Some(EntryId(3)));
    on_event(&mut state, &mut panel, WindowEvent::RowSelected(77));
    assert_eq!(selected_path_from_state(&state), "Selected path is unavailable");
    on_event(&mut state, &mut panel, WindowEvent::RowToggled(1));
    assert_eq!(panel.rows.len(), 4);
    on_event(&mut state, &mut panel, WindowEvent::RowToggled(0));
    assert_eq!(panel.rows.len(), 1);
    assert_eq!(entry_id_from_i32(-5), None);
    assert_eq!(selected_path_from_state(&WindowState::default()), "No row selected");
}

fn finished_app() -> DiskLoomApp {
    let mut app = DiskLoomApp::default();
    app.start_scan();
    let result = ScanResult::from_outcome(outcome(), 9);
    assert!(!app.receive_scan(Received::Message(ScanMessage::Complete(Box::new(result)))));
    app
}

#[test]
fn the_desktop_window_goes_through_a_scan() {
    let mut app = DiskLoomApp::default();
    assert_eq!(app.status_lines()[0].text, "See your disk clearly.");
    assert!(!app.receive_scan(Received::Disconnected));
    app.path = "  ".to_owned();
    assert_eq!(app.start_scan(), ".");
    assert_eq!(app.status_lines()[0].text, "Scanning");
    assert!(app.receive_scan(Received::Message(ScanMessage::Progress(UiScanProgress {
        summary: outcome().summary,
        elapsed_ms: 3
    }))));
    assert_eq!(
        app.status_lines()[0].text,
        "Scanning: 4 entries, 2 files, 2 directories, 0 inaccessible, 3 ms"
    );
    assert!(!app.receive_scan(Received::Empty));
    assert!(!app.receive_scan(Received::Disconnected));
    assert_eq!(app.status_lines()[0].text, "scan worker stopped");
    assert_eq!(app.status_lines()[0].tone, Tone::Error);

    app.start_scan();
    assert!(!app.receive_scan(Received::Message(ScanMessage::Error("bad".to_owned()))));
    assert!(matches!(&app.state, UiState::Error(error) if error == "bad"));

    let mut app = finished_app();
    assert_eq!(
        app.status_lines()[0].text,
        "4 entries, 2 files, 2 directories, 0 inaccessible, 9 ms, fallback traversal"
    );
    assert_eq!(app.caption().as_deref(), Some("Showing 4 of 4 entries"));
    app.active_tab = ActiveTab::Duplicates;
    assert_eq!(app.caption().as_deref(), Some("0 duplicate candidate groups"));
    app.active_tab = ActiveTab::Types;
    assert_eq!(app.caption(), None);
}

#[test]
fn a_reason_is_shown_as_a_warning() {
    let mut app = DiskLoomApp::default();
    app.start_scan();
    let mut found = outcome();
    found.fallback_reason = Some("denied".to_owned());
    app.receive_scan(Received::Message(ScanMessage::Complete(Box::new(
        ScanResult::from_outcome(found, 1),
    ))));

    let lines = app.status_lines();

    assert_eq!(lines[1].text, "Fallback: denied");
    assert_eq!(lines[1].tone.colour(), Some((224, 164, 82)));
    assert_eq!(Tone::Plain.colour(), None);
}

#[test]
fn the_filter_is_applied_anew_where_a_field_changed() {
    let mut app = DiskLoomApp::default();
    assert!(matches!(
        app.ensure_view_cache(),
        Err(InputError::Message(message)) if message == "no scan result"
    ));
    let mut app = finished_app();
    app.active_tab = ActiveTab::Files;
    assert_eq!(app.caption(), None);
    app.ensure_view_cache().unwrap();
    assert_eq!(app.caption().as_deref(), Some("4 of 4 entries"));

    app.filters.set_field(FilterField::Name, "large".to_owned());
    assert_eq!(app.filters.field(FilterField::Name), "large");
    assert_eq!(app.filters.field(FilterField::Path), "");
    app.ensure_view_cache().unwrap();
    assert_eq!(app.caption().as_deref(), Some("1 of 4 entries"));
    app.filters_changed(false);
    assert!(app.view_cache.is_some());
    app.filters_changed(true);
    assert!(app.view_cache.is_none());
    app.filters.set_field(FilterField::MinSize, "x".to_owned());
    assert!(app.ensure_view_cache().is_err());
}

#[test]
fn files_are_selected_and_renamed() {
    let mut app = finished_app();
    assert!(app.rename_request().is_none());
    assert!(!app.selection_enabled());
    app.run_shell_action("opened in Explorer", Ok(()));
    assert!(app.action_status.is_none());

    app.select_path("root\\small.bin");
    assert!(app.is_selected("root\\small.bin"));
    assert_eq!(app.rename_target, "small.bin");
    app.run_shell_action("opened in Explorer", Err("no shell"));
    let status = app.action_status.as_ref().unwrap();
    assert!(status.is_error);
    assert_eq!(status.tone(), Tone::Error);

    app.rename_target = "  ".to_owned();
    assert!(app.rename_request().is_none());
    assert_eq!(app.action_status.as_ref().unwrap().message, "rename target is empty");
    app.rename_target = " tiny.bin ".to_owned();
    let (from, to) = app.rename_request().unwrap();
    assert_eq!(from, "root\\small.bin");
    assert_eq!(to, "root\\tiny.bin");
    app.rename_done(&to, Err("busy"));
    assert!(app.is_selected("root\\small.bin"));
    app.rename_done(&to, Ok(()));
    assert!(app.is_selected("root\\tiny.bin"));
    assert_eq!(
        app.action_status.as_ref().unwrap().message,
        "renamed; scan data is stale"
    );

    app.select_path("C:\\");
    app.rename_target = "x".to_owned();
    assert!(app.rename_request().is_none());
    assert_eq!(
        app.action_status.as_ref().unwrap().message,
        "selected path has no parent"
    );
}

#[test]
fn a_scan_is_exported() {
    let mut app = DiskLoomApp::default();
    assert!(app.start_export().is_none());
    let mut app = finished_app();
    assert!(app.export_enabled());
    app.export_path = " ".to_owned();
    assert!(app.start_export().is_none());
    assert_eq!(app.action_status.as_ref().unwrap().message, "CSV path is empty");
    app.export_path = " out.csv ".to_owned();
    let (graph, path, directories) = app.start_export().unwrap();
    assert_eq!(graph.len(), 4);
    assert_eq!(path, "out.csv");
    assert!(directories);
    assert!(!app.export_enabled());
    app.receive_action(Received::Empty);
    assert_eq!(app.action_status.as_ref().unwrap().message, "exporting CSV");
    app.receive_action(Received::Message(export_done("out.csv", Ok(()))));
    assert_eq!(
        app.action_status.as_ref().unwrap().message,
        "CSV exported to out.csv"
    );
    app.receive_action(Received::Disconnected);
    assert_eq!(
        app.action_status.as_ref().unwrap().message,
        "CSV exported to out.csv"
    );
    app.start_export();
    app.receive_action(Received::Disconnected);
    assert_eq!(
        app.action_status.as_ref().unwrap().message,
        "background action stopped"
    );
    assert_eq!(
        export_failure("create", "out.csv", "denied"),
        "failed to create out.csv: denied"
    );
    assert!(export_done("x", Err("y")).is_error);
    assert_eq!(
        ActionStatus {
            message: String::new(),
            is_error: false
        }
        .tone(),
        Tone::Good
    );
}

#[test]
fn the_filter_fields_stand_in_three_rows() {
    assert_eq!(search_controls().len(), 4);
    assert_eq!(size_controls().len(), 5);
    assert_eq!(time_controls().len(), 2);
    assert!(matches!(
        search_controls()[0],
        FilterControl::Text {
            label: "Search",
            field: FilterField::Name,
            width: 180
        }
    ));
    assert!(matches!(
        size_controls()[4],
        FilterControl::Check {
            label: "Dirs",
            flag: FilterFlag::IncludeDirectories
        }
    ));
    assert_eq!(name_indent(3), 42);
    assert_eq!(name_indent(13), 180);
    assert_eq!(name_indent(usize::MAX), 180);
}

fn native() -> NativeApp {
    let startup = native_startup("C:\\", &Vec::new());
    NativeApp::new(
        startup,
        vec![VolumeShortcut {
            root: "E:\\".to_owned(),
            label: "E: NTFS".to_owned(),
            is_ntfs: true,
            total_bytes: None,
            free_bytes: None,
        }],
    )
}

#[test]
fn the_native_window_obeys_commands() {
    let mut app = native();
    assert!(matches!(app.on_command(IDC_SCAN), NativeAction::StartScan));
    assert!(matches!(app.on_command(IDC_CANCEL), NativeAction::Nothing));
    assert!(matches!(app.on_command(IDC_FALLBACK), NativeAction::Repaint));
    assert_eq!(app.scanner_mode, UiScannerMode::Fallback);
    assert_eq!(app.status, "Scanner set to Fallback");
    app.scroll_top = 9;
    assert!(matches!(app.on_command(IDC_TAB_TYPES), NativeAction::Repaint));
    assert_eq!(app.active_tab, NativeTab::Types);
    assert_eq!(app.scroll_top, 0);
    match app.on_command(IDC_DRIVE_BASE) {
        NativeAction::SetPath(path) => assert_eq!(path, "E:\\"),
        _ => panic!("the drive was not chosen"),
    }
    assert_eq!(app.status, "Path set to E:\\");
    assert!(matches!(app.on_command(IDC_DRIVE_BASE + 1), NativeAction::Nothing));
    assert!(matches!(app.on_command(17), NativeAction::Nothing));
}

#[test]
fn the_native_window_goes_through_a_scan() {
    let mut app = native();
    assert_eq!(app.scan_target("  ").as_deref(), Some("."));
    assert_eq!(app.start_scan("C:\\", ElevationAnswer::Requested), None);
    assert_eq!(
        app.status,
        "Administrator access requested for direct NTFS scanning"
    );
    assert_eq!(app.start_scan("C:\\", ElevationAnswer::Failed("no".to_owned())), None);
    assert!(matches!(&app.state, NativeState::Error(error) if error == "no"));
    assert_eq!(
        app.start_scan(" C:\\ ", ElevationAnswer::NotNeeded).as_deref(),
        Some("C:\\")
    );
    assert_eq!(app.status, "Scanning C:\\");
    assert_eq!(app.scan_target("D:\\"), None);
    assert_eq!(app.start_scan("D:\\", ElevationAnswer::NotNeeded), None);
    assert!(matches!(app.on_command(IDC_CANCEL), NativeAction::CancelScan));
    assert_eq!(app.status, "Cancelling scan");
    assert!(app.receive_scan(Received::Message(NativeMessage::Progress(UiScanProgress {
        summary: outcome().summary,
        elapsed_ms: 2
    }))));
    assert!(!app.receive_scan(Received::Empty));
    let result = NativeResult::from_outcome(outcome(), 1_234);
    assert_eq!(result.total_size, 110);
    assert!(!app.receive_scan(Received::Message(NativeMessage::Complete(Box::new(result)))));
    assert_eq!(app.status, "4 entries scanned in 1234 ms");
    assert!(!app.receiving);
    assert!(!app.cancellable);

    app.start_scan("C:\\", ElevationAnswer::NotNeeded);
    assert!(!app.receive_scan(Received::Message(NativeMessage::Error("bad".to_owned()))));
    assert_eq!(app.status, "Scan failed");
    app.start_scan("C:\\", ElevationAnswer::NotNeeded);
    assert!(!app.receive_scan(Received::Disconnected));
    assert!(!app.cancellable);
    assert!(!app.receive_scan(Received::Disconnected));
}

#[test]
fn the_wheel_scrolls_by_rows() {
    let mut app = native();
    app.on_mouse_wheel(0xff88_0000);
    assert_eq!(app.scroll_top, 4);
    app.on_mouse_wheel(0xff88_0001);
    assert_eq!(app.scroll_top, 8);
    app.on_mouse_wheel(0x0078_0000);
    assert_eq!(app.scroll_top, 4);
    app.on_mouse_wheel(0x0078_0000);
    app.on_mouse_wheel(0x0078_0000);
    assert_eq!(app.scroll_top, 0);
    assert_eq!(low_word(0x1234_5678), 0x5678);
}

#[test]
fn messages_are_known_by_number() {
    assert_eq!(WindowMessage::from_number(0x0111), WindowMessage::Command);
    assert_eq!(WindowMessage::from_number(0x020a), WindowMessage::Wheel);
    assert_eq!(WindowMessage::from_number(0x0138), WindowMessage::ControlColour);
    assert_eq!(WindowMessage::from_number(WM_SCAN_MESSAGE), WindowMessage::Scan);
    assert_eq!(WindowMessage::from_number(WM_START_SCAN), WindowMessage::StartScan);
    assert_eq!(WindowMessage::from_number(0x0081), WindowMessage::Other);
    assert_eq!(WindowMessage::EraseBackground.answer(), Some(1));
    assert_eq!(WindowMessage::Paint.answer(), Some(0));
    assert_eq!(WindowMessage::Other.answer(), None);
}

#[test]
fn controls_stand_side_by_side() {
    let placed = layout_controls(5);
    assert_eq!(placed.len(), 15);
    let drives: Vec<(i32, i32)> = placed[10..].iter().map(|at| (at.x, at.y)).collect();
    assert_eq!(drives, vec![(18, 222), (104, 222), (190, 222), (18, 256), (104, 256)]);
    assert_eq!(placed[14].id, drive_control_id(4));
    assert_eq!(drive_control_id(70_000), 2_000 + 4_464);
    assert_eq!(drive_control_id(65_535), u16::MAX);
    assert!(control_enabled(IDC_CANCEL, true));
    assert!(!control_enabled(IDC_CANCEL, false));
    assert!(!control_enabled(IDC_SCAN, true));
    assert!(control_enabled(IDC_TAB_FILES, true));
}

fn texts(paints: &[Paint]) -> Vec<&str> {
    paints
        .iter()
        .filter_map(|paint| match paint {
            Paint::Text { text, .. } => Some(text.as_str()),
            Paint::Fill { .. } => None,
        })
        .collect()
}

#[test]
fn the_native_window_is_painted() {
    let client = Area {
        left: 0,
        top: 0,
        right: 1320,
        bottom: 780,
    };
    let mut app = native();
    let paints = draw(&app, client);
    assert!(texts(&paints).contains(&"Choose a drive or path, then scan."));
    assert!(texts(&paints).contains(&"Current: Auto"));

    app.start_scan("C:\\", ElevationAnswer::NotNeeded);
    assert_eq!(
        texts(&draw(&app, client))
            .iter()
            .filter(|text| **text == "Starting scan")
            .count(),
        2
    );
    let mut found = outcome();
    found.fallback_reason = Some("denied".to_owned());
    let result = NativeResult::from_outcome(found, 12);
    app.receive_scan(Received::Message(NativeMessage::Complete(Box::new(result))));
    let paints = draw(&app, client);
    let shown = texts(&paints);
    assert!(shown.contains(&"4 entries, 2 files, 2 dirs, 12 ms, fallback traversal"));
    assert!(shown.contains(&"Fallback reason: denied"));
    assert!(shown.contains(&"    large.bin"));
    assert!(shown.contains(&"110 B"));

    app.scroll_top = 3;
    assert!(!texts(&draw(&app, client)).contains(&"    large.bin"));
    app.on_command(IDC_TAB_FILES);
    assert!(texts(&draw(&app, client)).contains(&"root\\big\\large.bin"));
    app.on_command(IDC_TAB_TYPES);
    assert!(texts(&draw(&app, client)).contains(&"bin"));
    app.on_command(IDC_TAB_TREEMAP);
    let paints = draw(&app, client);
    assert!(matches!(
        paints.last(),
        Some(Paint::Fill { area, colour: COLOR_PANEL }) if *area == table_rect(client)
    ));

    app.start_scan("C:\\", ElevationAnswer::NotNeeded);
    app.receive_scan(Received::Message(NativeMessage::Error("bad".to_owned())));
    assert!(matches!(
        draw(&app, client).last(),
        Some(Paint::Text { text, colour: COLOR_ERROR, style: TextStyle::Block, .. }) if text == "bad"
    ));
}

#[test]
fn a_small_window_has_no_rows() {
    let client = rect_xy(0, 0, 10, 10);
    assert_eq!(visible_rows(table_rect(client)), 0);
    assert_eq!(visible_rows(rect_xy(0, 210, 9, 291)), 2);
}

#[test]
fn tiles_are_named_where_there_is_room() {
    let mut out = Vec::new();
    draw_tile(&mut out, rect_xy(5, 5, 5, 50), 0, "none");
    assert!(out.is_empty());
    draw_tile(&mut out, rect_xy(0, 0, 97, 27), 6, "name");
    assert_eq!(out.len(), 2);
    assert!(matches!(out[0], Paint::Fill { colour, .. } if colour == rgb(122, 116, 178)));
    match &out[1] {
        Paint::Text { area, colour, style, .. } => {
            assert_eq!(*area, inset_rect(rect_xy(0, 0, 97, 27), 6, 4));
            assert_eq!(*colour, COLOR_TEXT);
            assert_eq!(style.number(), 0x8020);
        }
        Paint::Fill { .. } => panic!("the tile has no name"),
    }
    draw_tile(&mut out, rect_xy(0, 0, 96, 27), 1, "name");
    assert_eq!(out.len(), 3);
}
