//! Filters, rankings, statistics and duplicates.

use diskloom::candidates::find_duplicate_candidates;
use diskloom::dashboard::{
    duplicate_group_from_candidate, duplicate_groups_from_graph, duplicate_wasted_bytes,
    filtered_rows_from_graph, outline_row, tree_rows_from_graph,
};
use diskloom::dates::{days_from_civil, days_in_month, is_leap_year};
use diskloom::filter::{FilterError, NameMatcher, QueryFilter};
use diskloom::format::{format_bytes, format_count, format_duration, format_size, push_padded};
use diskloom::graph::{EntryId, FileGraph, FileGraphBuilder, FileKind};
use diskloom::inputs::{
    matcher_from_input, parse_optional_u64, parse_optional_unix_seconds,
    parse_ymd_to_unix_seconds, trimmed_string, FilterInputs, InputError,
};
use diskloom::ranking::{
    sort_entries, top_entries_by_own_size, top_entries_by_total_size, SortKey, SortOrder,
};
use diskloom::stats::{extension_label, file_type_stats};
use diskloom::treemap::{file_rows_from_graph, treemap_items_from_graph};

fn sample_graph() -> FileGraph {
    let mut builder = FileGraphBuilder::new();
    let root = builder
        .add_entry(None, "root", FileKind::Directory, 0, 0, 0)
        .unwrap();
    builder
        .add_entry(
            Some(root),
            "trace.log",
            FileKind::File,
            40,
            64,
            1_704_067_200,
        )
        .unwrap();
    builder
        .add_entry(
            Some(root),
            "notes.txt",
            FileKind::File,
            10,
            16,
            1_672_531_200,
        )
        .unwrap();
    builder.finish()
}

fn nested_graph() -> FileGraph {
    let mut builder = FileGraphBuilder::new();
    let root = builder
        .add_entry(None, "root", FileKind::Directory, 0, 0, 0)
        .unwrap();
    let big = builder
        .add_entry(Some(root), "big", FileKind::Directory, 0, 0, 0)
        .unwrap();
    builder
        .add_entry(Some(big), "large.bin", FileKind::File, 100, 128, 0)
        .unwrap();
    builder
        .add_entry(Some(root), "small.bin", FileKind::File, 10, 16, 0)
        .unwrap();
    builder.finish()
}

#[test]
fn find_duplicate_candidates_should_group_by_size_name_and_modified_date() {
    let mut builder = FileGraphBuilder::new();
    let root = builder
        .add_entry(None, "root", FileKind::Directory, 0, 0, 0)
        .unwrap();
    builder
        .add_entry(Some(root), "copy.bin", FileKind::File, 10, 10, 100)
        .unwrap();
    builder
        .add_entry(Some(root), "COPY.bin", FileKind::File, 10, 10, 100)
        .unwrap();
    builder
        .add_entry(Some(root), "other.bin", FileKind::File, 10, 10, 100)
        .unwrap();

    let graph = builder.finish();
    let candidates = find_duplicate_candidates(&graph);

    assert_eq!(candidates.len(), 1);
    assert_eq!(candidates[0].entries.len(), 2);
    assert_eq!(candidates[0].name, "copy.bin");
    assert_eq!(candidates[0].entries, vec![EntryId(1), EntryId(2)]);
}

#[test]
fn names_outside_ascii_are_duplicates_in_any_case() {
    let mut builder = FileGraphBuilder::new();
    builder
        .add_entry(None, "ÄRGER.txt", FileKind::File, 7, 8, 1)
        .unwrap();
    builder
        .add_entry(None, "ärger.txt", FileKind::File, 7, 8, 1)
        .unwrap();
    let graph = builder.finish();

    let candidates = find_duplicate_candidates(&graph);

    assert_eq!(candidates.len(), 1);
    assert_eq!(candidates[0].name, "ärger.txt");
}

#[test]
fn file_type_stats_should_group_files_by_lowercase_extension() {
    let mut builder = FileGraphBuilder::new();
    let root = builder
        .add_entry(None, "root", FileKind::Directory, 0, 0, 0)
        .unwrap();
    builder
        .add_entry(Some(root), "a.TXT", FileKind::File, 10, 16, 0)
        .unwrap();
    builder
        .add_entry(Some(root), "b.txt", FileKind::File, 20, 24, 0)
        .unwrap();
    builder
        .add_entry(Some(root), "noext", FileKind::File, 5, 8, 0)
        .unwrap();

    let graph = builder.finish();
    let stats = file_type_stats(&graph, 10);

    assert_eq!(stats[0].extension, "txt");
    assert_eq!(stats[0].files, 2);
    assert_eq!(stats[0].size, 30);
    assert_eq!(stats[1].extension, "(none)");
    assert_eq!(file_type_stats(&graph, 1).len(), 1);
    assert_eq!(extension_label(".gitignore"), "(none)");
    assert_eq!(extension_label("archive.tar.GZ"), "gz");
}

#[test]
fn filtered_rows_should_apply_extension_and_size() {
    let graph = sample_graph();
    let filters = FilterInputs {
        extension: "log".to_owned(),
        min_size: "20".to_owned(),
        include_directories: false,
        ..FilterInputs::default()
    };

    let rows = filtered_rows_from_graph(&graph, &filters, 10).unwrap();

    assert_eq!(rows.matched, 1);
    assert_eq!(rows.rows[0].path_text, "root\\trace.log");
}

#[test]
fn filtered_rows_should_apply_upper_bounds_and_modified_dates() {
    let graph = sample_graph();
    let filters = FilterInputs {
        max_size: "20".to_owned(),
        modified_after: "2023-01-01".to_owned(),
        modified_before: "2023-12-31".to_owned(),
        include_directories: false,
        ..FilterInputs::default()
    };

    let rows = filtered_rows_from_graph(&graph, &filters, 10).unwrap();

    assert_eq!(rows.matched, 1);
    assert_eq!(rows.rows[0].path_text, "root\\notes.txt");
}

#[test]
fn fields_that_make_no_filter_are_reported() {
    let graph = sample_graph();
    let filters = FilterInputs {
        name: "(".to_owned(),
        regex: true,
        ..FilterInputs::default()
    };
    assert!(matches!(
        filtered_rows_from_graph(&graph, &filters, 10),
        Err(InputError::Pattern(FilterError::Regex(_)))
    ));

    let filters = FilterInputs {
        max_allocated: "much".to_owned(),
        ..FilterInputs::default()
    };
    match filtered_rows_from_graph(&graph, &filters, 10) {
        Err(InputError::Message(message)) => {
            assert_eq!(message, "Max allocated must be a non-negative integer");
        }
        _ => panic!("the field holds no number"),
    }
}

#[test]
fn patterns_find_names_and_paths() {
    let graph = nested_graph();
    let filter = QueryFilter {
        name: Some(NameMatcher::regex(r"^(large|small)\.bin$").unwrap()),
        path: Some(NameMatcher::regex(r"\\big\\").unwrap()),
        ..QueryFilter::default()
    };

    let found = filter.compile().unwrap().matching_ids(&graph);

    assert_eq!(found, vec![EntryId(2)]);
    let matcher = NameMatcher::regex("^a+$").unwrap();
    assert!(matcher.matches("aaa"));
    assert!(!matcher.matches("aab"));
    assert!(matches!(NameMatcher::regex("["), Err(FilterError::Regex(_))));
    assert!(NameMatcher::contains("Gro").matches("nogrow"));
    assert!(!NameMatcher::contains("x").matches("abc"));
}

#[test]
fn the_default_filter_lets_everything_pass() {
    let graph = nested_graph();

    let found = QueryFilter::default().compile().unwrap().matching_ids(&graph);

    assert_eq!(found, graph.ids());
}

#[test]
fn a_filter_bounds_sizes_and_times_on_both_sides() {
    let graph = sample_graph();
    let all = |filter: QueryFilter| filter.compile().unwrap().matching_ids(&graph);

    assert_eq!(
        all(QueryFilter {
            min_size: Some(40),
            max_size: Some(40),
            ..QueryFilter::default()
        }),
        vec![EntryId(1)]
    );
    assert_eq!(
        all(QueryFilter {
            min_allocated: Some(16),
            max_allocated: Some(64),
            ..QueryFilter::default()
        }),
        vec![EntryId(1), EntryId(2)]
    );
    assert_eq!(
        all(QueryFilter {
            modified_after: Some(1_672_531_200),
            modified_before: Some(1_672_531_200),
            ..QueryFilter::default()
        }),
        vec![EntryId(2)]
    );
    assert_eq!(
        all(QueryFilter {
            extension: Some("LOG".to_owned()),
            ..QueryFilter::default()
        }),
        vec![EntryId(1)]
    );
    assert_eq!(
        all(QueryFilter {
            include_directories: false,
            ..QueryFilter::default()
        }),
        vec![EntryId(1), EntryId(2)]
    );
}

#[test]
fn parse_optional_u64_should_accept_empty_or_integer_values() {
    assert_eq!(parse_optional_u64("Min size", "").unwrap(), None);
    assert_eq!(parse_optional_u64("Min size", "42").unwrap(), Some(42));
    assert!(parse_optional_u64("Min size", "abc").is_err());
}

#[test]
fn numbers_in_fields_may_have_a_sign_and_white_space() {
    assert_eq!(parse_optional_u64("Min size", " +7\t").unwrap(), Some(7));
    assert_eq!(
        parse_optional_u64("Min size", "18446744073709551615").unwrap(),
        Some(u64::MAX)
    );
    assert_eq!(
        parse_optional_u64("Min size", "18446744073709551616").unwrap_err(),
        "Min size must be a non-negative integer"
    );
    assert!(parse_optional_u64("Min size", "-1").is_err());
    assert_eq!(parse_optional_unix_seconds("Modified", "-1").unwrap(), Some(-1));
}

#[test]
fn parse_optional_unix_seconds_should_accept_integer_or_date() {
    assert_eq!(parse_optional_unix_seconds("Modified", "").unwrap(), None);
    assert_eq!(
        parse_optional_unix_seconds("Modified", "1704067200").unwrap(),
        Some(1_704_067_200)
    );
    assert_eq!(
        parse_optional_unix_seconds("Modified", "2024-01-01").unwrap(),
        Some(1_704_067_200)
    );
    assert!(parse_optional_unix_seconds("Modified", "2024-02-31").is_err());
}

#[test]
fn dates_follow_the_calendar() {
    assert!(is_leap_year(2000));
    assert!(!is_leap_year(1900));
    assert!(is_leap_year(2024));
    assert_eq!(days_in_month(2024, 2), 29);
    assert_eq!(days_in_month(2023, 2), 28);
    assert_eq!(days_in_month(2023, 13), 0);
    assert_eq!(days_from_civil(1970, 1, 1), Some(0));
    assert_eq!(days_from_civil(1969, 12, 31), Some(-1));
    assert_eq!(days_from_civil(2000, 2, 29), Some(11_016));
    assert_eq!(days_from_civil(2000, 3, 1), Some(11_017));
    assert_eq!(days_from_civil(1999, 2, 29), None);
    assert_eq!(days_from_civil(-1, 1, 1), Some(-719_893));
    assert_eq!(parse_ymd_to_unix_seconds("1970-01-02"), Some(86_400));
    assert_eq!(parse_ymd_to_unix_seconds("1970-01-02-03"), None);
    assert_eq!(
        parse_optional_unix_seconds("Modified after", "soon").unwrap_err(),
        "Modified after must be Unix seconds or YYYY-MM-DD"
    );
}

#[test]
fn what_is_typed_is_trimmed() {
    assert_eq!(trimmed_string("  a b\u{a0}"), Some("a b".to_owned()));
    assert_eq!(trimmed_string(" \t "), None);
    assert!(matcher_from_input("  ", true).unwrap().is_none());
    assert!(matcher_from_input(" LOG ", false).unwrap().unwrap().matches("a.log"));
    assert!(matcher_from_input("(", true).is_err());
}

#[test]
fn duplicate_groups_should_order_by_wasted_bytes() {
    let mut builder = FileGraphBuilder::new();
    let root = builder
        .add_entry(None, "root", FileKind::Directory, 0, 0, 0)
        .unwrap();
    builder
        .add_entry(Some(root), "small.bin", FileKind::File, 10, 10, 100)
        .unwrap();
    builder
        .add_entry(Some(root), "SMALL.bin", FileKind::File, 10, 10, 100)
        .unwrap();
    builder
        .add_entry(Some(root), "large.bin", FileKind::File, 100, 100, 100)
        .unwrap();
    builder
        .add_entry(Some(root), "LARGE.bin", FileKind::File, 100, 100, 100)
        .unwrap();
    let graph = builder.finish();

    let groups = duplicate_groups_from_graph(&graph, 10, 10);

    assert_eq!(groups[0].name, "large.bin");
    assert_eq!(groups[0].wasted_bytes, 100);
    assert_eq!(groups[0].paths.len(), 2);
    assert_eq!(duplicate_groups_from_graph(&graph, 1, 1).len(), 1);
    assert_eq!(duplicate_groups_from_graph(&graph, 1, 1)[0].paths, vec!["root\\large.bin"]);
    let candidates = find_duplicate_candidates(&graph);
    let small = candidates.iter().find(|found| found.size == 10).unwrap();
    assert_eq!(duplicate_wasted_bytes(small), 10);
    assert_eq!(duplicate_group_from_candidate(&graph, small, 5).count, 2);
}

#[test]
fn lib_tree_rows_should_sort_children_by_total_size() {
    let graph = nested_graph();

    let rows = tree_rows_from_graph(&graph, 10);

    assert_eq!(rows[0].name, "root");
    assert_eq!(rows[1].name, "big");
    assert_eq!(rows[1].depth, 1);
    assert_eq!(rows[2].name, "large.bin");
    assert_eq!(rows[2].depth, 2);
    assert_eq!(rows[3].name, "small.bin");
}

#[test]
fn native_tree_rows_should_sort_children_by_total_size() {
    let graph = nested_graph();

    let rows = tree_rows_from_graph(&graph, 10);

    assert_eq!(graph.name(rows[1].id), Some("big"));
    assert_eq!(rows[1].depth, 1);
}

#[test]
fn tree_rows_should_respect_limit() {
    let graph = sample_graph();

    let rows = tree_rows_from_graph(&graph, 2);

    assert_eq!(rows.len(), 2);
    assert_eq!(outline_row(&graph, EntryId(1), 3).unwrap().kind, "file");
    assert!(outline_row(&graph, EntryId(3), 0).is_none());
}

#[test]
fn file_rows_should_sort_by_own_size() {
    let graph = nested_graph();

    let rows = file_rows_from_graph(&graph, 10);

    assert_eq!(graph.name(rows[0].id), Some("large.bin"));
    assert_eq!(rows.len(), 2);
    let items = treemap_items_from_graph(&graph, 1);
    assert_eq!(items.len(), 1);
    assert_eq!(items[0].label, "large.bin");
    assert_eq!(items[0].size, 100);
}

#[test]
fn entries_are_sorted_by_every_key() {
    let graph = sample_graph();
    let sorted = |key, order| {
        let mut ids = graph.ids();
        sort_entries(&graph, &mut ids, key, order);
        ids.iter().map(|id| id.0).collect::<Vec<u32>>()
    };

    assert_eq!(sorted(SortKey::Name, SortOrder::Ascending), vec![2, 0, 1]);
    assert_eq!(sorted(SortKey::Name, SortOrder::Descending), vec![1, 0, 2]);
    assert_eq!(sorted(SortKey::Size, SortOrder::Descending), vec![0, 1, 2]);
    assert_eq!(sorted(SortKey::Allocated, SortOrder::Ascending), vec![2, 1, 0]);
    assert_eq!(sorted(SortKey::Modified, SortOrder::Ascending), vec![0, 2, 1]);
}

#[test]
fn the_largest_entries_come_first() {
    let graph = nested_graph();

    assert_eq!(
        top_entries_by_total_size(&graph, &graph.ids(), 2),
        vec![EntryId(0), EntryId(1)]
    );
    assert_eq!(
        top_entries_by_own_size(&graph, &graph.ids(), 2),
        vec![EntryId(2), EntryId(3)]
    );
    assert!(top_entries_by_own_size(&graph, &graph.ids(), 0).is_empty());
}

#[test]
fn lib_format_count_should_group_thousands() {
    assert_eq!(format_count(2_107_718), "2,107,718");
}

#[test]
fn native_format_count_should_group_thousands() {
    assert_eq!(format_count(1_234_567), "1,234,567");
}

#[test]
fn slint_app_format_count_should_group_thousands() {
    assert_eq!(format_count(1_234_567), "1,234,567");
}

#[test]
fn native_format_bytes_should_scale_binary_units() {
    assert_eq!(format_bytes(512), "512 B");
    assert_eq!(format_bytes(1536), "1.50 KB");
    assert_eq!(format_bytes(10 * 1024 * 1024), "10.0 MB");
}

#[test]
fn slint_app_format_bytes_should_scale_binary_units() {
    assert_eq!(format_bytes(512), "512 B");
    assert_eq!(format_bytes(1536), "1.50 KB");
    assert_eq!(format_bytes(10 * 1024 * 1024), "10.0 MB");
}

fn plain_format_bytes(bytes: u64) -> String {
    const UNITS: [&str; 5] = ["B", "KB", "MB", "GB", "TB"];
    let mut value = bytes as f64;
    let mut unit_idx = 0;
    while value >= 1024.0 && unit_idx + 1 < UNITS.len() {
        value /= 1024.0;
        unit_idx += 1;
    }
    if unit_idx == 0 {
        format!("{bytes} B")
    } else if value >= 100.0 {
        format!("{value:.0} {}", UNITS[unit_idx])
    } else if value >= 10.0 {
        format!("{value:.1} {}", UNITS[unit_idx])
    } else {
        format!("{value:.2} {}", UNITS[unit_idx])
    }
}

#[test]
fn sizes_are_rounded_as_floating_point_numbers_are() {
    let mut bytes: u64 = 1;
    for _ in 0..200 {
        for near in [bytes.saturating_sub(1), bytes, bytes.saturating_add(1)] {
            assert_eq!(format_bytes(near), plain_format_bytes(near));
        }
        bytes = bytes.saturating_mul(4).saturating_div(3).saturating_add(7);
    }
    for bytes in [
        0,
        1023,
        1024,
        1029,
        1_048_575,
        1_048_576,
        102_348,
        10_235,
        (1 << 53) + 1,
        u64::MAX,
        u64::MAX - 1025,
    ] {
        assert_eq!(format_bytes(bytes), plain_format_bytes(bytes));
    }
}

#[test]
fn sizes_can_be_shown_as_they_are() {
    assert_eq!(format_size(1536, true), "1536");
    assert_eq!(format_size(1536, false), "1.50 KB");
    assert_eq!(format_count(0), "0");
    assert_eq!(format_count(999), "999");
    assert_eq!(format_count(1_000), "1,000");
}

#[test]
fn times_are_shown_in_the_unit_that_fits() {
    assert_eq!(format_duration(999, "0.99"), "999 ms");
    assert_eq!(format_duration(1_500, "1.50"), "1.50 s");
    assert_eq!(format_duration(61_999, "61.99"), "1m 1s");
}

#[test]
fn columns_are_as_wide_as_they_must_be() {
    let mut out = String::new();
    push_padded(&mut out, "ab", 4);
    push_padded(&mut out, "abcdef", 4);

    assert_eq!(out.len(), 10);
    assert!(out.ends_with("abcdef"));
}
