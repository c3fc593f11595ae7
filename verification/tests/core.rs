//! The graph of files, its names and its sizes.

use diskloom::graph::{
    EntryFlags, EntryId, EntryMetadata, FileGraph, FileGraphBuilder, FileGraphError, FileKind,
};
use diskloom::intern::StringInterner;
use diskloom::size::ByteSize;
use diskloom::snapshot::{export_snapshot, import_snapshot, SnapshotError};
use diskloom::totals::{
    graph_accounted_allocated, graph_accounted_size, graph_totals, summary_from_graph,
    totals_for_roots,
};

#[test]
fn finish_should_aggregate_directory_totals() {
    let mut builder = FileGraphBuilder::new();
    let root = builder
        .add_entry(None, "root", FileKind::Directory, 0, 0, 0)
        .unwrap();
    builder
        .add_entry(Some(root), "a.bin", FileKind::File, 10, 16, 0)
        .unwrap();
    builder
        .add_entry(Some(root), "b.bin", FileKind::File, 20, 32, 0)
        .unwrap();

    let graph = builder.finish();
    let stats = graph.stats(root).unwrap();

    assert_eq!(stats.total_size.bytes(), 30);
    assert_eq!(stats.total_allocated.bytes(), 48);
    assert_eq!(stats.descendants, 2);
}

#[test]
fn reconstruct_path_should_build_path_from_parent_chain() {
    let mut builder = FileGraphBuilder::new();
    let root = builder
        .add_entry(None, "root", FileKind::Directory, 0, 0, 0)
        .unwrap();
    let child = builder
        .add_entry(Some(root), "file.txt", FileKind::File, 5, 8, 0)
        .unwrap();

    let graph = builder.finish();

    assert_eq!(graph.reconstruct_path(child).unwrap(), "root\\file.txt");
}

#[test]
fn intern_should_reuse_existing_id_for_same_string() {
    let mut interner = StringInterner::new();

    let first = interner.intern("readme.md");
    let second = interner.intern("readme.md");

    assert_eq!(first, second);
}

#[test]
fn without_lookup_should_append_duplicate_strings() {
    let mut interner = StringInterner::without_lookup();

    let first = interner.intern("readme.md");
    let second = interner.intern("readme.md");

    assert_ne!(first, second);
    assert_eq!(interner.len(), 2);
}

#[test]
fn intern_owned_without_lookup_should_append_string() {
    let mut interner = StringInterner::without_lookup();

    let id = interner.intern_owned("readme.md".to_owned());

    assert_eq!(interner.get(id), Some("readme.md"));
}

#[test]
fn get_should_return_interned_string() {
    let mut interner = StringInterner::new();
    let id = interner.intern("src");

    assert_eq!(interner.get(id), Some("src"));
}

#[test]
fn finish_should_drop_lookup_index_and_keep_values() {
    let mut interner = StringInterner::new();
    let id = interner.intern("src");

    let table = interner.finish();

    assert_eq!(table.get(id), Some("src"));
}

#[test]
fn finish_should_pack_names_without_per_name_string_headers() {
    let mut interner = StringInterner::without_lookup();
    let first = interner.intern("Program Files");
    let second = interner.intern("readme.md");

    let table = interner.finish();

    assert_eq!(table.len(), 2);
    assert_eq!(table.get(first), Some("Program Files"));
    assert_eq!(table.get(second), Some("readme.md"));
}

#[test]
fn names_outside_ascii_are_packed_whole() {
    let mut interner = StringInterner::new();
    assert!(interner.is_empty());
    let first = interner.intern("größe");
    let second = interner.intern("日本");

    let table = interner.finish();

    assert!(!table.is_empty());
    assert_eq!(table.get(first), Some("größe"));
    assert_eq!(table.get(second), Some("日本"));
}

#[test]
fn an_entry_needs_a_parent_that_is_there() {
    let mut builder = FileGraphBuilder::new();

    let error = builder
        .add_entry(Some(EntryId(7)), "lost", FileKind::File, 1, 1, 0)
        .unwrap_err();
    assert_eq!(error, FileGraphError::InvalidEntry(7));

    let error = builder
        .add_entry(Some(EntryId(0)), "own", FileKind::Directory, 0, 0, 0)
        .unwrap_err();
    assert_eq!(error, FileGraphError::SelfParent { child: EntryId(0) });
    assert_eq!(builder.len(), 0);
}

#[test]
fn totals_stay_at_the_largest_number() {
    let mut builder = FileGraphBuilder::without_name_dedup();
    let root = builder
        .add_entry(None, "root", FileKind::Directory, 1, 2, 0)
        .unwrap();
    builder
        .add_entry(Some(root), "huge", FileKind::File, u64::MAX, 10, 0)
        .unwrap();
    let graph = builder.finish();

    assert_eq!(graph.stats(root).unwrap().total_size.bytes(), u64::MAX);
    assert_eq!(graph.stats(root).unwrap().total_allocated.bytes(), 12);
}

#[test]
fn kinds_and_marks_are_kept() {
    let mut builder = FileGraphBuilder::new();
    let link = builder
        .add_entry(None, "link", FileKind::Symlink, 0, 0, 0)
        .unwrap();
    let mut marks = EntryFlags::empty();
    marks.insert(EntryFlags::INACCESSIBLE);
    marks.insert(EntryFlags::HARD_LINK);
    marks.remove(EntryFlags::HARD_LINK);
    let closed = builder
        .add_entry_with_flags_owned_name(
            None,
            "closed".to_owned(),
            EntryMetadata {
                kind: FileKind::Directory,
                size: 0,
                allocated: 0,
                modified_unix: -5,
                extra_flags: marks,
            },
        )
        .unwrap();
    let graph = builder.finish();

    assert!(!graph.is_empty());
    assert_eq!(graph.ids(), vec![link, closed]);
    let entry = graph.entry(link).unwrap();
    assert_eq!(entry.id, link);
    assert_eq!(entry.parent, None);
    assert!(entry.flags.contains(EntryFlags::SYMLINK));
    assert!(!entry.flags.contains(EntryFlags::DIRECTORY));
    let entry = graph.entry(closed).unwrap();
    assert_eq!(entry.modified_unix, -5);
    assert!(entry.flags.contains(EntryFlags::DIRECTORY));
    assert!(entry.flags.contains(EntryFlags::INACCESSIBLE));
    assert!(!entry.flags.contains(EntryFlags::HARD_LINK));
    assert_eq!(entry.flags.bits(), EntryFlags::from_bits_retain(9).bits());
    assert!(graph.entry(EntryId(2)).is_none());
    assert!(graph.name(EntryId(2)).is_none());
    assert!(graph.stats(EntryId(2)).is_none());
    assert!(graph.reconstruct_path(EntryId(2)).is_none());
}

fn two_roots() -> FileGraph {
    let mut builder = FileGraphBuilder::new();
    let root = builder
        .add_entry(None, "C:\\", FileKind::Directory, 0, 0, 0)
        .unwrap();
    let docs = builder
        .add_entry(Some(root), "docs", FileKind::Directory, 5, 6, 0)
        .unwrap();
    builder
        .add_entry(Some(docs), "a.txt", FileKind::File, 10, 16, 0)
        .unwrap();
    builder
        .add_entry(None, "D:\\", FileKind::Directory, 1, 2, 0)
        .unwrap();
    builder.finish()
}

#[test]
fn children_are_listed_in_the_order_they_came() {
    let graph = two_roots();

    assert_eq!(graph.children_of(EntryId(0)), vec![EntryId(1)]);
    assert_eq!(graph.children_of(EntryId(1)), vec![EntryId(2)]);
    assert!(graph.children_of(EntryId(3)).is_empty());
}

#[test]
fn the_roots_account_for_everything() {
    let graph = two_roots();
    let own: u64 = graph
        .ids()
        .iter()
        .map(|id| graph.stats(*id).unwrap().own_size.bytes())
        .sum();

    assert_eq!(graph_totals(&graph), (16, 24));
    assert_eq!(own, 16);
    assert_eq!(graph_accounted_size(&graph), 16);
    assert_eq!(graph_accounted_allocated(&graph), 24);
    assert_eq!(totals_for_roots(&graph, &vec![EntryId(1), EntryId(3)]), (16, 24));
    assert_eq!(totals_for_roots(&graph, &vec![EntryId(9)]), (0, 0));
}

#[test]
fn a_directory_is_its_own_size_and_that_of_its_children() {
    let graph = two_roots();
    let docs = graph.stats(EntryId(1)).unwrap();

    assert_eq!(docs.total_size.bytes(), 5 + graph.stats(EntryId(2)).unwrap().total_size.bytes());
    assert_eq!(docs.total_allocated.bytes(), 6 + 16);
}

#[test]
fn a_summary_counts_directories_and_the_rest() {
    let summary = summary_from_graph(&two_roots());

    assert_eq!(summary.entries, 4);
    assert_eq!(summary.directories, 3);
    assert_eq!(summary.files, 1);
    assert_eq!(summary.inaccessible, 0);
}

#[test]
fn snapshot_should_round_trip_graph_entries_and_totals() {
    let mut builder = FileGraphBuilder::new();
    let root = builder
        .add_entry(None, "C:\\", FileKind::Directory, 0, 0, 10)
        .unwrap();
    let child = builder
        .add_entry_with_flags(
            Some(root),
            "file.bin",
            EntryMetadata {
                kind: FileKind::File,
                size: 10,
                allocated: 16,
                modified_unix: 20,
                extra_flags: EntryFlags::from_bits_retain(EntryFlags::HARD_LINK),
            },
        )
        .unwrap();
    let graph = builder.finish();

    let mut bytes = Vec::new();
    export_snapshot(&graph, &mut bytes).unwrap();
    let restored = import_snapshot(bytes.as_slice()).unwrap();

    assert_eq!(restored.len(), 2);
    assert_eq!(restored.name(root), Some("C:\\"));
    assert_eq!(restored.name(child), Some("file.bin"));
    assert_eq!(restored.stats(root).unwrap().total_size.bytes(), 10);
    assert!(restored
        .entry(child)
        .unwrap()
        .flags
        .contains(EntryFlags::HARD_LINK));
}

#[test]
fn snapshot_should_reject_invalid_header() {
    let error = import_snapshot(b"bad-data".as_slice()).unwrap_err();

    assert!(matches!(error, SnapshotError::InvalidHeader));
}

#[test]
fn a_snapshot_that_is_cut_short_is_rejected() {
    let mut bytes = Vec::new();
    export_snapshot(&two_roots(), &mut bytes).unwrap();

    assert!(import_snapshot(&bytes).is_ok());
    for len in 8..bytes.len() {
        let error = import_snapshot(&bytes[..len]).unwrap_err();
        assert!(matches!(error, SnapshotError::UnexpectedEof));
    }
}

#[test]
fn a_snapshot_with_a_parent_that_does_not_come_first_is_rejected() {
    let mut builder = FileGraphBuilder::new();
    builder
        .add_entry(None, "C:\\", FileKind::Directory, 0, 0, 0)
        .unwrap();
    let mut bytes = Vec::new();
    export_snapshot(&builder.finish(), &mut bytes).unwrap();
    bytes[12..16].copy_from_slice(&3_u32.to_le_bytes());

    let error = import_snapshot(&bytes).unwrap_err();

    assert!(matches!(error, SnapshotError::InvalidParent { entry: 0, parent: 3 }));
}

#[test]
fn a_snapshot_with_a_name_that_is_no_text_is_rejected() {
    let mut builder = FileGraphBuilder::new();
    builder
        .add_entry(None, "ab", FileKind::File, 0, 0, 0)
        .unwrap();
    let mut bytes = Vec::new();
    export_snapshot(&builder.finish(), &mut bytes).unwrap();
    let last = bytes.len() - 1;
    bytes[last] = 0xff;

    assert!(matches!(import_snapshot(&bytes).unwrap_err(), SnapshotError::Utf8));
}

#[test]
fn sizes_are_described_in_binary_units() {
    assert_eq!(ByteSize(0).describe(), "0 B");
    assert_eq!(ByteSize(1023).describe(), "1023 B");
    assert_eq!(ByteSize(1536).describe(), "1.5 KiB");
    assert_eq!(ByteSize(10 * 1024 * 1024).describe(), "10.0 MiB");
    assert_eq!(ByteSize(u64::MAX).describe(), "16777216.0 TiB");
    assert_eq!(ByteSize(1536).bytes(), 1536);
    assert_eq!(ByteSize::default().bytes(), 0);
}
