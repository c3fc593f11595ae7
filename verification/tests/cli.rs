//! The command line, and what it writes.

use diskloom::bench::{
    dataset_dir_name, dataset_file_name, dataset_report, write_measurements, ScanMeasurement,
};
use diskloom::command::{
    command_has_filters, descendants_of, direct_scan_volume, elevated_arguments,
    elevated_outcome, elevated_output_name, entry_has_parent, find_graph_path, first_step,
    normalize_args, query_filter, ranked_entry_ids, scan_needs_elevation, spinner_line,
    visible_root_ids, ScanCommand, ScanStep,
};
use diskloom::csv_export::{export_csv, CsvExportOptions};
use diskloom::filter::QueryFilter;
use diskloom::graph::{EntryId, FileGraph, FileGraphBuilder, FileKind};
use diskloom::report::{
    scan_complete_detail, summary_detail, volume_usage_for_direct_scan,
    write_duplicate_candidates, write_file_type_stats, write_report, write_scan_summary,
    write_top_entries, write_volumes, ScanReport, VolumeUsage,
};
use diskloom::scan::ScanSummary;
use diskloom::stats::file_type_stats;
use diskloom::targets::{
    display_root_for_direct_scan, display_scan_path, drive_for_path, drive_root_from_designator,
    drive_volume, normalized_path_key, resolved_scan_path, scan_input_path, strip_verbatim_prefix,
    volume_arg_is_drive_root, ScannerMode,
};
use diskloom::volume::{VolumeInfo, VolumeKind};

fn scan_command() -> ScanCommand {
    ScanCommand {
        path: ".".to_owned(),
        scanner: ScannerMode::Fallback,
        csv: None,
        name: None,
        path_filter: None,
        regex: false,
        extension: None,
        min_size: None,
        max_size: None,
        min_allocated: None,
        max_allocated: None,
        modified_after: None,
        modified_before: None,
        files_only: false,
        follow_symlinks: false,
        precise_allocated: false,
        duplicates: false,
        file_types: false,
        deep: false,
        limit: 15,
        summary_only: false,
        raw: false,
        elevated_output: None,
    }
}

fn scan_command_with_path_filter(path_filter: &str) -> ScanCommand {
    let mut command = scan_command();
    command.path_filter = Some(path_filter.to_owned());
    command
}

fn words(words: &[&str]) -> Vec<String> {
    words.iter().map(|word| (*word).to_owned()).collect()
}

#[test]
fn write_measurements_should_emit_csv_rows() {
    let measurements = vec![ScanMeasurement {
        iteration: 1,
        elapsed_ms: 10,
        entries: 3,
        files: 2,
        directories: 1,
        inaccessible: 0,
    }];
    let mut output = String::new();

    write_measurements(&mut output, &measurements);

    assert!(output.contains("1,10,3,2,1,0"));
    assert!(output.starts_with("iteration,elapsed_ms,entries,files,directories,inaccessible\n"));
}

#[test]
fn datasets_have_names_with_leading_zeros() {
    assert_eq!(dataset_dir_name(7), "dir-000007");
    assert_eq!(dataset_file_name(1_234_567), "file-1234567.bin");
    assert!(dataset_report(2, 3, "C:\\data").contains('6'));
}

#[test]
fn drive_volume_should_accept_drive_root() {
    assert_eq!(drive_volume("c:\\").as_deref(), Some("C:"));
}

#[test]
fn drive_volume_should_reject_folder_path() {
    assert_eq!(drive_volume("c:\\Users"), None);
}

#[test]
fn drive_volume_should_only_accept_drive_roots() {
    assert_eq!(drive_volume("c:\\").as_deref(), Some("C:"));
    assert_eq!(drive_volume("D:").as_deref(), Some("D:"));
    assert_eq!(drive_volume("C:\\Users"), None);
}

#[test]
fn resolved_scan_path_should_treat_bare_drive_as_root() {
    assert_eq!(resolved_scan_path("a:", None, None), "A:\\");
}

#[test]
fn scan_input_path_should_treat_bare_drive_as_root() {
    assert_eq!(scan_input_path("A:"), "A:\\");
}

#[test]
fn display_scan_path_should_treat_bare_drive_as_root() {
    assert_eq!(display_scan_path("a:"), "A:\\");
}

#[test]
fn direct_scan_display_root_should_not_scope_bare_drive() {
    let resolved_path = resolved_scan_path("a:", None, None);

    assert!(display_root_for_direct_scan(&resolved_path).is_none());
}

#[test]
fn scan_input_path_should_keep_relative_folder_paths() {
    assert_eq!(scan_input_path("target"), "target");
}

#[test]
fn paths_are_resolved_against_what_the_system_says() {
    assert_eq!(
        resolved_scan_path("src", Some(r"\\?\C:\work\src"), Some("C:\\work")),
        "C:\\work\\src"
    );
    assert_eq!(resolved_scan_path("src", None, Some("C:\\work")), "C:\\work\\src");
    assert_eq!(resolved_scan_path("src", None, None), "src");
    assert_eq!(strip_verbatim_prefix(r"\\?\C:\a"), "C:\\a");
    assert_eq!(strip_verbatim_prefix("C:\\a"), "C:\\a");
    assert_eq!(drive_for_path("d:\\x").as_deref(), Some("D:"));
    assert_eq!(drive_for_path("\\\\server\\x"), None);
    assert_eq!(drive_root_from_designator("q:").as_deref(), Some("Q:\\"));
    assert_eq!(drive_root_from_designator("q:\\"), None);
    assert_eq!(normalized_path_key("  C:\\Users\\ "), "c:\\users");
}

#[test]
fn scan_needs_elevation_should_match_drive_backed_scan_targets() {
    assert!(scan_needs_elevation("c:\\", None, None, ScannerMode::Auto));
    assert!(scan_needs_elevation("c:\\", None, None, ScannerMode::Ntfs));
    assert!(!scan_needs_elevation("c:\\", None, None, ScannerMode::Fallback));
    assert!(scan_needs_elevation("c:\\Users", None, None, ScannerMode::Auto));
}

#[test]
fn a_scan_begins_with_the_scanner_that_was_chosen() {
    assert_eq!(first_step(ScannerMode::Fallback, "C:\\", true), ScanStep::Traverse);
    assert_eq!(first_step(ScannerMode::Ntfs, "x", false), ScanStep::ReadVolume);
    assert_eq!(
        first_step(ScannerMode::Auto, "C:\\x", true),
        ScanStep::ReadVolumeOrTraverse
    );
    assert_eq!(first_step(ScannerMode::Auto, "C:\\x", false), ScanStep::Traverse);
    assert_eq!(first_step(ScannerMode::Auto, "x", true), ScanStep::Traverse);
    assert_eq!(direct_scan_volume("x", "C:\\x"), "C:");
    assert_eq!(direct_scan_volume("x", "x"), "x");
}

#[test]
fn volume_arg_is_drive_root_should_accept_drive_arguments() {
    assert!(volume_arg_is_drive_root("c:"));
    assert!(volume_arg_is_drive_root("c:\\"));
    assert!(!volume_arg_is_drive_root("c:\\Users"));
}

fn source_tree() -> FileGraph {
    let mut builder = FileGraphBuilder::new();
    let root = builder
        .add_entry(None, "root", FileKind::Directory, 0, 0, 0)
        .unwrap();
    let src = builder
        .add_entry(Some(root), "src", FileKind::Directory, 0, 0, 0)
        .unwrap();
    builder
        .add_entry(Some(src), "main.rs", FileKind::File, 5, 8, 0)
        .unwrap();
    builder
        .add_entry(Some(root), "readme.md", FileKind::File, 3, 4, 0)
        .unwrap();
    builder.finish()
}

#[test]
fn query_filter_should_match_full_path_argument() {
    let graph = source_tree();
    let command = scan_command_with_path_filter("src");

    let filter = query_filter(&command).unwrap().compile().unwrap();
    let matches: Vec<_> = filter.matching_ids(&graph);

    assert_eq!(matches.len(), 2);
}

#[test]
fn a_command_with_a_bad_pattern_makes_no_filter() {
    let mut command = scan_command();
    assert!(!command_has_filters(&command));
    command.name = Some("(".to_owned());
    assert!(command_has_filters(&command));
    assert!(query_filter(&command).is_ok());
    command.regex = true;
    assert!(query_filter(&command).is_err());
}

#[test]
fn default_ranking_should_show_direct_children_without_scan_root() {
    let mut builder = FileGraphBuilder::new();
    let root = builder
        .add_entry(None, ".", FileKind::Directory, 0, 0, 0)
        .unwrap();
    let target = builder
        .add_entry(Some(root), "target", FileKind::Directory, 0, 0, 0)
        .unwrap();
    let src = builder
        .add_entry(Some(root), "src", FileKind::Directory, 120, 120, 0)
        .unwrap();
    let nested = builder
        .add_entry(Some(target), "deps", FileKind::Directory, 900, 900, 0)
        .unwrap();
    let graph = builder.finish();
    let command = scan_command();
    let filter = query_filter(&command).unwrap().compile().unwrap();

    let ids = ranked_entry_ids(&graph, &filter, &command, None);

    assert_eq!(ids, vec![target, src]);
    assert!(!ids.contains(&root));
    assert!(!ids.contains(&nested));
}

#[test]
fn deep_ranking_should_include_descendants_without_scan_root() {
    let mut builder = FileGraphBuilder::new();
    let root = builder
        .add_entry(None, ".", FileKind::Directory, 0, 0, 0)
        .unwrap();
    let target = builder
        .add_entry(Some(root), "target", FileKind::Directory, 0, 0, 0)
        .unwrap();
    let nested = builder
        .add_entry(Some(target), "deps", FileKind::Directory, 900, 900, 0)
        .unwrap();
    let graph = builder.finish();
    let mut command = scan_command();
    command.deep = true;
    let filter = query_filter(&command).unwrap().compile().unwrap();

    let ids = ranked_entry_ids(&graph, &filter, &command, None);

    assert!(ids.contains(&target));
    assert!(ids.contains(&nested));
    assert!(!ids.contains(&root));
}

#[test]
fn direct_scan_ranking_should_scope_to_display_root_children() {
    let mut builder = FileGraphBuilder::new();
    let root = builder
        .add_entry(None, "C:\\", FileKind::Directory, 0, 0, 0)
        .unwrap();
    let users = builder
        .add_entry(Some(root), "Users", FileKind::Directory, 0, 0, 0)
        .unwrap();
    let windows = builder
        .add_entry(
            Some(root),
            "Windows",
            FileKind::Directory,
            10_000,
            10_000,
            0,
        )
        .unwrap();
    let profile = builder
        .add_entry(Some(users), "heman", FileKind::Directory, 2_000, 2_000, 0)
        .unwrap();
    let graph = builder.finish();
    let command = scan_command();
    let filter = query_filter(&command).unwrap().compile().unwrap();

    let ids = ranked_entry_ids(&graph, &filter, &command, Some("C:\\Users"));

    assert_eq!(ids, vec![profile]);
    assert!(!ids.contains(&windows));
    assert!(!ids.contains(&users));
    assert_eq!(find_graph_path(&graph, "c:\\users\\"), Some(users));
    assert_eq!(find_graph_path(&graph, "c:\\nowhere"), None);
    assert_eq!(visible_root_ids(&graph, Some("c:\\users")), vec![users]);
    assert_eq!(visible_root_ids(&graph, None), vec![root]);
    assert_eq!(descendants_of(&graph, users), vec![users, profile]);
    assert!(entry_has_parent(&graph, profile));
    assert!(!entry_has_parent(&graph, root));
}

fn duplicates_graph() -> FileGraph {
    let mut builder = FileGraphBuilder::new();
    let root = builder
        .add_entry(None, "root", FileKind::Directory, 0, 0, 0)
        .unwrap();
    let left = builder
        .add_entry(Some(root), "left", FileKind::Directory, 0, 0, 0)
        .unwrap();
    let right = builder
        .add_entry(Some(root), "right", FileKind::Directory, 0, 0, 0)
        .unwrap();
    builder
        .add_entry(Some(left), "copy.bin", FileKind::File, 10, 10, 100)
        .unwrap();
    builder
        .add_entry(Some(right), "COPY.bin", FileKind::File, 10, 10, 100)
        .unwrap();
    builder.finish()
}

#[test]
fn duplicate_output_should_include_candidate_paths() {
    let graph = duplicates_graph();
    let mut output = String::new();

    write_duplicate_candidates(&mut output, &graph, 10, false);
    let left_path = "root\\left\\copy.bin";
    let right_path = "root\\right\\COPY.bin";

    assert!(output.contains(left_path));
    assert!(output.contains(right_path));
}

#[test]
fn normalize_args_should_default_to_scan_current_directory() {
    let args = normalize_args(words(&["dlm"]));

    assert_eq!(args, ["dlm", "scan", "."]);
}

#[test]
fn normalize_args_should_keep_default_path_with_hidden_elevation_output() {
    let args = normalize_args(words(&["dlm", "--elevated-output", "scan.txt"]));

    assert_eq!(args, ["dlm", "scan", ".", "--elevated-output", "scan.txt"]);
}

#[test]
fn normalize_args_should_treat_bare_path_as_scan_path() {
    let args = normalize_args(words(&["dlm", "C:\\Users\\heman"]));

    assert_eq!(args, ["dlm", "scan", "C:\\Users\\heman"]);
}

#[test]
fn commands_are_left_as_they_are() {
    assert!(normalize_args(Vec::new()).is_empty());
    for command in ["scan", "ntfs-probe", "volumes", "--help", "-h"] {
        assert_eq!(normalize_args(words(&["dlm", command])), ["dlm", command]);
    }
}

#[test]
fn a_scan_as_administrator_is_told_where_to_write() {
    assert_eq!(
        elevated_arguments(words(&["scan", "C:\\"]), "out.txt"),
        ["scan", "C:\\", "--elevated-output", "out.txt"]
    );
    assert_eq!(elevated_output_name(12, 345), "diskloom-elevated-12-345.txt");
    assert_eq!(elevated_outcome(0), Ok(()));
    assert_eq!(
        elevated_outcome(3).unwrap_err(),
        "elevated DiskLoom scan failed with exit code 3"
    );
    assert_eq!(spinner_line(5, "Scanning", "1.00 s"), "\r/ Scanning (1.00 s)");
    assert_eq!(spinner_line(7, "x", "y"), "\r\\ x (y)");
}

#[test]
fn export_csv_should_escape_paths_and_names() {
    let mut builder = FileGraphBuilder::new();
    let root = builder
        .add_entry(None, "root", FileKind::Directory, 0, 0, 0)
        .unwrap();
    builder
        .add_entry(Some(root), "a,b.txt", FileKind::File, 5, 8, 0)
        .unwrap();
    let graph = builder.finish();

    let mut output = Vec::new();
    export_csv(&graph, &mut output, CsvExportOptions::default()).unwrap();
    let csv = String::from_utf8(output).unwrap();

    assert!(csv.contains("\"a,b.txt\""));
}

#[test]
fn export_csv_should_skip_directories_when_requested() {
    let mut builder = FileGraphBuilder::new();
    let root = builder
        .add_entry(None, "root", FileKind::Directory, 0, 0, 0)
        .unwrap();
    builder
        .add_entry(Some(root), "file.txt", FileKind::File, 5, 8, 0)
        .unwrap();
    let graph = builder.finish();

    let mut output = Vec::new();
    export_csv(
        &graph,
        &mut output,
        CsvExportOptions {
            include_directories: false,
        },
    )
    .unwrap();
    let csv = String::from_utf8(output).unwrap();

    assert!(!csv.contains(",directory,"));
}

#[test]
fn every_record_of_an_export_is_exact() {
    let mut builder = FileGraphBuilder::new();
    let root = builder
        .add_entry(None, "ro\"ot", FileKind::Directory, 1, 2, -3)
        .unwrap();
    builder
        .add_entry(Some(root), " x\ny", FileKind::File, 5, 8, 9)
        .unwrap();
    builder
        .add_entry(None, "", FileKind::File, 0, 0, 0)
        .unwrap();
    let graph = builder.finish();

    let mut output = b"kept;".to_vec();
    export_csv(&graph, &mut output, CsvExportOptions::default()).unwrap();

    assert_eq!(
        String::from_utf8(output).unwrap(),
        "kept;path,name,kind,size,allocated,total_size,total_allocated,modified_unix\n\
         \"ro\"\"ot\",\"ro\"\"ot\",directory,1,2,6,10,-3\n\
         \"ro\"\"ot\\ x\ny\",\" x\ny\",file,5,8,5,8,9\n\
         ,,file,0,0,0,0,0\n"
    );
}

#[test]
fn export_graph_to_csv_should_write_scan_result() {
    let mut builder = FileGraphBuilder::new();
    let root = builder
        .add_entry(None, "root", FileKind::Directory, 0, 0, 0)
        .unwrap();
    builder
        .add_entry(Some(root), "trace.log", FileKind::File, 40, 64, 1_704_067_200)
        .unwrap();
    builder
        .add_entry(Some(root), "notes.txt", FileKind::File, 10, 16, 1_672_531_200)
        .unwrap();
    let graph = builder.finish();

    let mut output = Vec::new();
    export_csv(
        &graph,
        &mut output,
        CsvExportOptions {
            include_directories: false,
        },
    )
    .unwrap();
    let output = String::from_utf8(output).unwrap();

    assert!(output.contains("trace.log"));
    assert!(!output.contains("directory"));
}

fn summary() -> ScanSummary {
    ScanSummary {
        entries: 1_234,
        inaccessible: 3,
        directories: 34,
        files: 1_200,
    }
}

#[test]
fn summaries_are_put_into_words() {
    assert_eq!(summary_detail(summary()), "1,200 files, 34 folders, 3 inaccessible");
    assert_eq!(
        scan_complete_detail("direct NTFS MFT", Some("denied"), summary()),
        "direct NTFS MFT; 1,200 files, 34 folders, 3 inaccessible; NTFS fallback reason: denied"
    );
    assert_eq!(
        scan_complete_detail("fallback traversal", None, summary()),
        "fallback traversal; 1,200 files, 34 folders, 3 inaccessible"
    );
}

#[test]
fn a_volume_is_used_up_to_what_is_free() {
    let graph = duplicates_graph();
    let volumes = vec![
        VolumeInfo {
            root: "D:\\".to_owned(),
            kind: VolumeKind::Ntfs,
            total_bytes: None,
            free_bytes: Some(1),
        },
        VolumeInfo {
            root: "C:\\".to_owned(),
            kind: VolumeKind::Other("FAT32".to_owned()),
            total_bytes: Some(100),
            free_bytes: Some(40),
        },
    ];

    assert_eq!(
        volume_usage_for_direct_scan("c:", &volumes, &graph),
        Some(VolumeUsage {
            used: 60,
            total: 100,
            accounted_allocated: 20
        })
    );
    assert_eq!(volume_usage_for_direct_scan("d:", &volumes, &graph), None);
    assert_eq!(volume_usage_for_direct_scan("e:", &volumes, &graph), None);

    let mut out = String::new();
    write_volumes(&mut out, &volumes);
    assert!(out.contains("FAT32"));
    assert!(out.contains("60 B"));
}

#[test]
fn a_report_has_the_parts_that_were_asked_for() {
    let graph = duplicates_graph();
    let mut command = scan_command();
    command.duplicates = true;
    command.file_types = true;
    let filter = QueryFilter::default().compile().unwrap();
    let ids = ranked_entry_ids(&graph, &filter, &command, None);
    let report = ScanReport {
        path: "root",
        scanner_label: "fallback traversal",
        graph: &graph,
        summary: summary(),
        volume_usage: None,
        fallback_reason: Some("no rights".to_owned()),
        elapsed: "12 ms",
    };

    let mut out = String::new();
    write_report(&mut out, &report, &ids, &command);

    assert!(out.contains("fallback traversal"));
    assert!(out.contains("Fallback: no rights\n"));
    assert!(out.contains("root\\left\\copy.bin"));
    assert!(out.contains("bin"));

    let mut parts = String::new();
    write_scan_summary(
        &mut parts,
        "root",
        "fallback traversal",
        &graph,
        summary(),
        None,
        "12 ms",
    );
    assert!(out.starts_with(&parts));

    command.summary_only = true;
    command.duplicates = false;
    command.file_types = false;
    let mut short = String::new();
    write_report(&mut short, &report, &ids, &command);
    assert_eq!(short, parts + "Fallback: no rights\n");
}

#[test]
fn tables_list_no_more_than_the_limit() {
    let graph = duplicates_graph();
    let ids = vec![EntryId(3), EntryId(4)];

    let mut one = String::new();
    write_top_entries(&mut one, &graph, &ids, 1, true);
    let mut both = String::new();
    write_top_entries(&mut both, &graph, &ids, 2, true);

    assert!(one.contains("copy.bin"));
    assert!(!one.contains("COPY.bin"));
    assert!(both.contains("COPY.bin"));

    let mut types = String::new();
    write_file_type_stats(&mut types, &file_type_stats(&graph, 5), true);
    assert!(types.contains("bin"));
    assert!(types.contains("20"));
}
