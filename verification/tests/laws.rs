//! What holds across functions, on a few values each.

use std::collections::HashSet;
use std::sync::Arc;

use diskloom::command::{after_failed_read, ScanStep};
use diskloom::csv_export::{export_csv, CsvExportOptions};
use diskloom::filter::{CompiledFilter, FilterError, NameMatcher, QueryFilter};
use diskloom::format::format_count;
use diskloom::graph::{EntryId, FileGraph, FileGraphBuilder, FileKind};
use diskloom::installer::{append_path_value, path_value_contains};
use diskloom::intern::{StringId, StringInterner};
use diskloom::scan::{
    asks_for_allocated, DirectoryWalk, FoundItem, ScanControl, ScanError, ScanOptions, ScanSummary,
};
use diskloom::scanner::to_wide;
use diskloom::session::{viewport_from_state, AppState};
use diskloom::targets::scan_input_path;
use diskloom::totals::summary_from_graph;
use diskloom::tree::{SortSpec, TreeIndex};
use diskloom::viewport::TreeRow;
use diskloom::volume::{
    listed_volumes, normalize_drive_root, parse_drive_strings, VolumeAnswer, VolumeKind,
};
use diskloom::winpath::{extension, file_name, join, parent};

#[test]
fn a_search_path_keeps_what_it_holds() {
    for path in ["C:\\Tools", "C:\\Tools;;", "D:\\a;c:\\tools\\;E:\\b;"] {
        let longer = append_path_value(path, "C:\\New;F:\\Other");
        assert!(path_value_contains(path, "C:\\Tools"));
        assert!(path_value_contains(&longer, "C:\\Tools"));
        assert!(path_value_contains(&longer, "C:\\New"));
        assert!(path_value_contains(&longer, "F:\\Other"));
    }
}

#[test]
fn listed_drives_are_read_back() {
    let drives = ["C:\\", "D:\\", "\u{1F600}:\\"];
    let mut listed: Vec<u16> = Vec::new();
    for drive in drives {
        listed.extend(to_wide(drive));
    }
    listed.push(0);

    assert_eq!(parse_drive_strings(&listed), drives);
}

#[test]
fn a_root_is_normalized_once() {
    for value in ["c:", " d:\\ ", "E:/"] {
        let root = normalize_drive_root(value).unwrap();
        assert_eq!(normalize_drive_root(&root).as_deref(), Some(root.as_str()));
    }
}

#[test]
fn a_scanned_path_is_asked_for_again() {
    for path in ["c:", "C:\\", "folder", ""] {
        let scanned = scan_input_path(path);
        assert_eq!(scan_input_path(&scanned), scanned);
    }
    assert_eq!(scan_input_path("c:"), "C:\\");
}

#[test]
fn a_summary_counts_each_entry_once() {
    let mut builder = FileGraphBuilder::new();
    let root = builder
        .add_entry(None, "C:\\", FileKind::Directory, 0, 0, 0)
        .unwrap();
    builder
        .add_entry(Some(root), "a", FileKind::File, 1, 1, 0)
        .unwrap();
    builder
        .add_entry(Some(root), "b", FileKind::Symlink, 1, 1, 0)
        .unwrap();

    let summary = summary_from_graph(&builder.finish());

    assert_eq!(summary.entries, 3);
    assert_eq!(summary.directories, 1);
    assert_eq!(summary.files, 2);
}

#[test]
fn a_count_has_the_digits_of_its_number() {
    for n in [0, 7, 999, 1_000, 12_345, 1_000_000, u64::MAX] {
        assert_eq!(format_count(n).replace(',', ""), n.to_string());
    }
    assert_eq!(format_count(1_234_567), "1,234,567");
}

#[test]
fn equal_names_are_kept_once_or_each() {
    let named_twice = |mut builder: FileGraphBuilder| {
        let root = builder
            .add_entry(None, "same", FileKind::Directory, 0, 0, 0)
            .unwrap();
        let below = builder
            .add_entry(Some(root), "same", FileKind::File, 1, 1, 0)
            .unwrap();
        let graph = builder.finish();
        assert_eq!(graph.name(root), Some("same"));
        assert_eq!(graph.name(below), Some("same"));
        (graph.entry(root).unwrap().name, graph.entry(below).unwrap().name)
    };

    let (first, second) = named_twice(FileGraphBuilder::new());
    assert_eq!(first, second);
    let (first, second) = named_twice(FileGraphBuilder::default());
    assert_eq!(first, second);
    let (first, second) = named_twice(FileGraphBuilder::without_name_dedup());
    assert_ne!(first, second);
}

#[test]
fn a_matcher_is_made_from_what_was_compiled() {
    let matcher = NameMatcher::from_compiled(regex::Regex::new("^a.c$")).unwrap();
    assert!(matcher.matches("abc"));
    assert!(!matcher.matches("abcd"));
    let refused = regex::Regex::new("(").unwrap_err();
    let error = NameMatcher::from_compiled(Err(refused.clone())).unwrap_err();
    assert!(matches!(error, FilterError::Regex(error) if error == refused));
}

#[test]
fn names_have_the_number_of_the_entry_or_of_the_first_equal_name() {
    let numbers = |mut builder: FileGraphBuilder| {
        for name in ["a", "b", "a", "c", "b"] {
            builder
                .add_entry(None, name, FileKind::File, 1, 1, 0)
                .unwrap();
        }
        let graph = builder.finish();
        graph
            .ids()
            .into_iter()
            .map(|id| graph.entry(id).unwrap().name.0)
            .collect::<Vec<_>>()
    };

    assert_eq!(numbers(FileGraphBuilder::new()), [0, 1, 0, 2, 1]);
    assert_eq!(
        numbers(FileGraphBuilder::without_name_dedup()),
        [0, 1, 2, 3, 4]
    );
}

fn forest() -> FileGraph {
    let mut builder = FileGraphBuilder::new();
    for drive in ["C:\\", "D:\\"] {
        let root = builder
            .add_entry(None, drive, FileKind::Directory, 0, 0, 0)
            .unwrap();
        let mut above = root;
        for (k, name) in ["one", "two", "three"].into_iter().enumerate() {
            let size = k as u64 + 1;
            builder
                .add_entry(Some(above), "file.bin", FileKind::File, size, size, 0)
                .unwrap();
            above = builder
                .add_entry(Some(above), name, FileKind::Directory, 0, 0, 0)
                .unwrap();
        }
    }
    builder.finish()
}

fn shown(rows: &[TreeRow]) -> Vec<(u32, u32, String)> {
    rows.iter()
        .map(|row| (row.id, row.depth, row.path.clone()))
        .collect()
}

#[test]
fn every_page_is_a_slice_of_all_lines_and_no_entry_has_two() {
    let graph = Arc::new(forest());
    let mut state = AppState {
        index: Some(TreeIndex::build(&graph, SortSpec::default())),
        graph: Some(Arc::clone(&graph)),
        ..AppState::default()
    };
    state.expanded.reset_to(&graph.ids());
    state.expanded.remove(EntryId(9));

    for query in [None, Some("file"), Some("t"), Some("nothing")] {
        let full = viewport_from_state(&state, 0, usize::MAX, query);
        assert_eq!(full.total, full.rows.len());
        let ids: HashSet<u32> = full.rows.iter().map(|row| row.id).collect();
        assert_eq!(ids.len(), full.total);
        assert!(full.total <= graph.len());
        for offset in [0, 1, 2, 5, 13, 14, 100, usize::MAX] {
            for limit in [0, 1, 3, 100, usize::MAX] {
                let page = viewport_from_state(&state, offset, limit, query);
                let from = offset.min(full.total);
                let to = offset.saturating_add(limit).min(full.total);
                assert_eq!(page.total, full.total);
                assert_eq!(page.offset, from);
                assert_eq!(shown(&page.rows), shown(&full.rows[from..to]));
            }
        }
    }
}

#[test]
fn an_export_reads_back_as_its_fields() {
    let names = ["plain", "a,b", "say \"hi\"", "two\nlines", "\"", ",", "cr\rlf", "\u{e4}\u{1F600}"];
    let mut builder = FileGraphBuilder::new();
    for name in names {
        builder
            .add_entry(None, name, FileKind::File, 7, 8, -1)
            .unwrap();
    }
    let mut bytes = Vec::new();
    export_csv(&builder.finish(), &mut bytes, CsvExportOptions::default()).unwrap();

    let mut reader = csv::Reader::from_reader(bytes.as_slice());
    assert_eq!(reader.headers().unwrap().len(), 8);
    let records: Vec<csv::StringRecord> = reader.records().map(Result::unwrap).collect();

    assert_eq!(records.len(), names.len());
    for (record, name) in records.iter().zip(names) {
        assert_eq!(&record[0], name);
        assert_eq!(&record[1], name);
        assert_eq!(&record[2], "file");
        assert_eq!(&record[3], "7");
        assert_eq!(&record[4], "8");
        assert_eq!(&record[7], "-1");
    }
}

#[test]
fn prefixes_of_paths_are_kept_together() {
    assert_eq!(file_name(r"\\server\share"), None);
    assert_eq!(parent(r"\\server\share"), None);
    assert_eq!(file_name(r"\\server\share\x.txt").as_deref(), Some("x.txt"));
    assert_eq!(parent(r"\\server\share\x.txt").as_deref(), Some(r"\\server\share\"));
    assert_eq!(parent(r"\\server\share\a\b").as_deref(), Some(r"\\server\share\a"));
    assert_eq!(join(r"\\server\share\a", r"\x"), r"\\server\share\x");
    assert_eq!(join(r"\\server\share", "x"), r"\\server\share\x");
    assert_eq!(join(r"C:\a", r"\\server\share\x"), r"\\server\share\x");
    assert_eq!(join(r"C:\a", r"\\server"), r"C:\\server");

    assert_eq!(file_name(r"\\?\C:"), None);
    assert_eq!(file_name(r"\\?\C:\"), None);
    assert_eq!(file_name(r"\\?\C:\a.txt").as_deref(), Some("a.txt"));
    assert_eq!(parent(r"\\?\C:\a.txt").as_deref(), Some(r"\\?\C:\"));
    assert_eq!(join(r"\\?\C:\a", r"\x"), r"\\?\C:\x");
    assert_eq!(file_name(r"\\?\C:\a/b").as_deref(), Some("a/b"));

    assert_eq!(file_name(r"\\?\UNC\server\share"), None);
    assert_eq!(file_name(r"\\?\UNC\server\share\x").as_deref(), Some("x"));
    assert_eq!(join(r"\\?\UNC\server\share\a", r"\x"), r"\\?\UNC\server\share\x");
    assert_eq!(file_name(r"\\?\pictures\x.png").as_deref(), Some("x.png"));
    assert_eq!(extension(r"\\?\pictures\x.png").as_deref(), Some("png"));

    assert_eq!(file_name(r"\\.\COM1"), None);
    assert_eq!(join(r"\\.\COM1", r"\x"), r"\\.\COM1\x");
    assert_eq!(join(r"C:\a", r"\\.\PhysicalDrive0"), r"\\.\PhysicalDrive0");

    assert_eq!(file_name(r"\\server").as_deref(), Some("server"));
    assert_eq!(file_name("C:\\a\\.\\").as_deref(), Some("a"));
    assert_eq!(join("C:", "x"), "C:x");
    assert_eq!(join("C:\\a", "\\x"), "C:\\x");
}

#[test]
fn names_are_resolved_behind_a_verbatim_prefix() {
    assert_eq!(join(r"\\?\C:\a", ".."), r"\\?\C:\");
    assert_eq!(join(r"\\?\C:\a", "b/../c"), r"\\?\C:\a\c");
    assert_eq!(join(r"\\?\C:\a", "../b"), r"\\?\C:\b");
    assert_eq!(join(r"\\?\C:\a", "../../b"), r"\\?\C:\b");
    assert_eq!(join(r"\\?\C:\", "../b"), r"\\?\C:\b");
    assert_eq!(join(r"\\?\C:", r"..\b\."), r"\\?\C:\b");
    assert_eq!(join(r"\\?\C:", ".."), r"\\?\C:");
    assert_eq!(join(r"\\?\C:\x\y", r".\b\."), r"\\?\C:\x\y\b");
    assert_eq!(join(r"\\?\C:\x\y", "."), r"\\?\C:\x\y");
    assert_eq!(join(r"\\?\C:\x\y", "/b//c/"), r"\\?\C:\b\c");
    assert_eq!(join(r"\\?\C:\x\y", "\\"), r"\\?\C:\");
    assert_eq!(join(r"\\?\C:\x\y", ""), "\\\\?\\C:\\x\\y\\");
    assert_eq!(join(r"\\?\C:\x/", ""), r"\\?\C:\x/");
    assert_eq!(join(r"\\?\C:\x/", "b"), r"\\?\C:\x/\b");
    assert_eq!(join(r"\\?\C:\x", r"D:\b/./"), r"D:\b/./");
    assert_eq!(join(r"\\?\C:/x", "b"), r"\\?\C:\x\b");
    // What the path itself holds is kept, dots too, and two dots lead back only by a name.
    assert_eq!(join(r"\\?\C:\x\\.\y", "b"), r"\\?\C:\x\.\y\b");
    assert_eq!(join(r"\\?\C:\x\..", ".."), r"\\?\C:\x\..");
    assert_eq!(join(r"\\?\UNC\server\share", "../b"), r"\\?\UNC\server\share\b");
    assert_eq!(join(r"\\?\UNC\server\share\a", ".."), r"\\?\UNC\server\share\");
    // Elsewhere a name is put behind the path as it is.
    assert_eq!(join(r"C:\a", ".."), r"C:\a\..");
    assert_eq!(join(r"\\server\share\a", "b/../c"), r"\\server\share\a\b/../c");

    assert_eq!(file_name(r"\\?\C:/x/y").as_deref(), Some("x/y"));
    assert_eq!(parent(r"\\?\C:/x/y").as_deref(), Some(r"\\?\C:/"));
    assert_eq!(parent(r"\\?\C:/x\y").as_deref(), Some(r"\\?\C:/x"));
    assert_eq!(file_name(r"\\?\C:/"), None);
}

#[test]
fn the_path_of_an_entry_is_joined_to_that_of_its_parent() {
    let mut builder = FileGraphBuilder::new();
    let root = builder
        .add_entry(None, r"\\?\C:\a", FileKind::Directory, 0, 0, 0)
        .unwrap();
    let up = builder
        .add_entry(Some(root), "..", FileKind::Directory, 0, 0, 0)
        .unwrap();
    let below = builder
        .add_entry(Some(up), "b", FileKind::File, 1, 1, 0)
        .unwrap();
    let graph = builder.finish();

    let path = |id| graph.reconstruct_path(id).unwrap();
    assert_eq!(path(root), r"\\?\C:\a");
    assert_eq!(path(up), r"\\?\C:\");
    assert_eq!(path(below), r"\\?\C:\b");
    for (id, above) in [(up, root), (below, up)] {
        assert_eq!(path(id), join(&path(above), graph.name(id).unwrap()));
    }
    assert_eq!(graph.reconstruct_path(EntryId(3)), None);
}

fn item(kind: FileKind, size: u64, allocated: Option<u64>) -> FoundItem {
    FoundItem {
        kind,
        size,
        allocated,
        modified_unix: 5,
    }
}

#[test]
fn a_walk_hands_out_every_directory_once() {
    let mut options = ScanOptions::new("root");
    assert!(!asks_for_allocated(&options, FileKind::File));
    options.precise_allocated = true;
    assert!(asks_for_allocated(&options, FileKind::File));
    assert!(!asks_for_allocated(&options, FileKind::Directory));

    let mut walk = DirectoryWalk::start(&options, 4, item(FileKind::Directory, 99, None)).unwrap();
    let root = walk.next_directory().unwrap();
    assert_eq!(root, EntryId(0));
    assert!(walk.enter("root"));
    assert!(walk.enter("root"));
    let first = walk
        .found(root, "first", item(FileKind::Directory, 99, Some(7)))
        .unwrap();
    let file = walk
        .found(root, "file", item(FileKind::File, 3, Some(4096)))
        .unwrap();
    assert_eq!(walk.progress(), None);
    let second = walk
        .found(root, "second", item(FileKind::Directory, 0, None))
        .unwrap();
    assert_eq!(walk.progress().map(|summary| summary.directories), Some(3));
    assert_eq!(walk.heed(ScanControl::Continue), Ok(()));
    assert_eq!(walk.heed(ScanControl::Cancel), Err(ScanError::Cancelled));

    let mut handed_out = Vec::new();
    while let Some(directory) = walk.next_directory() {
        handed_out.push(directory);
        if directory == second {
            walk.found(directory, "link", item(FileKind::Symlink, 2, None))
                .unwrap();
            walk.unreadable();
        }
    }
    assert_eq!(handed_out, [second, first]);
    assert!(matches!(
        walk.found(EntryId(50), "lost", item(FileKind::Directory, 0, None)),
        Err(ScanError::Graph(_))
    ));
    assert_eq!(walk.next_directory(), None);

    let (graph, summary) = walk.finish();
    assert_eq!(
        summary,
        ScanSummary {
            entries: 5,
            inaccessible: 1,
            directories: 3,
            files: 2
        }
    );
    assert_eq!(graph.name(root), Some("root"));
    let stats = graph.stats(root).unwrap();
    assert_eq!((stats.own_size.bytes(), stats.total_size.bytes()), (0, 5));
    assert_eq!(graph.stats(first).unwrap().own_allocated.bytes(), 7);
    assert_eq!(graph.stats(file).unwrap().own_allocated.bytes(), 4096);
    assert_eq!(graph.stats(EntryId(4)).unwrap().own_allocated.bytes(), 2);
    assert_eq!(graph.entry(EntryId(4)).unwrap().parent, Some(second));
    assert_eq!(graph.entry(file).unwrap().modified_unix, 5);
}

#[test]
fn a_walk_along_links_enters_a_place_once() {
    let options = ScanOptions {
        follow_symlinks: true,
        ..ScanOptions::new("root")
    };
    let mut walk = DirectoryWalk::start(&options, 0, item(FileKind::Directory, 0, None)).unwrap();
    assert!(walk.enter("C:\\root"));
    assert!(walk.enter("C:\\other"));
    assert!(!walk.enter("C:\\root"));
    assert!(!walk.enter("C:\\other"));

    let mut walk = DirectoryWalk::start(&options, 0, item(FileKind::File, 8, None)).unwrap();
    assert_eq!(walk.next_directory(), None);
    assert_eq!(walk.finish().1.files, 1);
}

#[test]
fn every_root_has_a_volume() {
    let roots = vec!["C:\\".to_owned(), "D:\\".to_owned(), "E:\\".to_owned()];
    let answers = vec![
        VolumeAnswer {
            fs_name: Some(to_wide("ntfs")),
            room: Some((100, 40)),
        },
        VolumeAnswer {
            fs_name: None,
            room: None,
        },
        VolumeAnswer {
            fs_name: Some(to_wide("exFAT")),
            room: None,
        },
    ];

    let volumes = listed_volumes(&roots, &answers);

    assert_eq!(volumes.len(), 3);
    assert!(volumes.iter().zip(&roots).all(|(volume, root)| volume.root == *root));
    assert_eq!(volumes[0].kind, VolumeKind::Ntfs);
    assert_eq!(volumes[0].total_bytes, Some(100));
    assert_eq!(volumes[0].free_bytes, Some(40));
    assert_eq!(volumes[1].kind, VolumeKind::Unknown);
    assert_eq!(volumes[1].total_bytes, None);
    assert_eq!(volumes[2].kind, VolumeKind::Other("exFAT".to_owned()));
    assert_eq!(volumes[2].free_bytes, None);
}

#[test]
fn a_failed_read_is_the_reason_to_walk_or_the_error() {
    let error = || "access denied".to_owned();
    assert_eq!(after_failed_read(ScanStep::ReadVolumeOrTraverse, error()), Ok(error()));
    assert_eq!(after_failed_read(ScanStep::ReadVolume, error()), Err(error()));
    assert_eq!(after_failed_read(ScanStep::Traverse, error()), Err(error()));
}

#[test]
fn clones_answer_as_the_originals_do() {
    let graph = forest();
    let copy = graph.clone();
    assert_eq!(copy.len(), graph.len());
    assert_eq!(
        copy.reconstruct_path(EntryId(5)),
        graph.reconstruct_path(EntryId(5))
    );

    let mut interner = StringInterner::new();
    interner.intern("a");
    interner.intern("b");
    let mut copy = interner.clone();
    assert_eq!(copy.intern("b"), StringId(1));
    assert_eq!(copy.intern("c"), StringId(2));
    assert_eq!(interner.intern("d"), StringId(2));
    let mut each = StringInterner::without_lookup();
    each.intern("a");
    assert_eq!(each.clone().intern("a"), StringId(1));

    for matcher in [NameMatcher::contains("READ"), NameMatcher::regex("^r.*d$").unwrap()] {
        let copy = matcher.clone();
        for text in ["read", "thread", "write"] {
            assert_eq!(copy.matches(text), matcher.matches(text));
        }
    }
    let filter = QueryFilter {
        name: Some(NameMatcher::regex("^f").unwrap()),
        min_size: Some(2),
        ..QueryFilter::default()
    };
    let filter: CompiledFilter = filter.clone().compile().unwrap();
    let copy = filter.clone();
    for id in graph.ids() {
        assert_eq!(copy.matches(&graph, id), filter.matches(&graph, id));
    }
}
