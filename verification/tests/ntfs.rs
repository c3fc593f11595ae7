//! The master file table, from its bytes to a graph.

use diskloom::graph::{EntryFlags, FileGraph, FileKind};
use diskloom::mft::{
    apply_fixups, filetime_to_unix, iter_attributes, parse_file_name, parse_file_record,
    parse_runlist, read_int_le, read_uint_le, resident_value, DataRun, FileRecordHeader,
    MftParseError, ATTR_DATA, ATTR_END, ATTR_FILE_NAME, ATTR_STANDARD_INFORMATION,
};
use diskloom::mft_reader::{first_record_offset, plan_mft_read, MftReadPlan, MftReader};
use diskloom::ntfs_graph::build_graph_from_entries;
use diskloom::scanned::{
    parse_scanned_file_record_in_place, ScannedFileNameAttribute, ScannedFileRecord,
};
use diskloom::scanner::{
    emit_ntfs_progress, heed_control, is_reserved_metadata_record, lcn_to_offset,
    maybe_emit_ntfs_progress, process_mft_record, process_mft_record_chunk,
    process_mft_record_range, raw_entry_from_scanned_record, records_per_mft_chunk,
    root_display_name, to_wide, volume_device_path, NtfsChunkResult, NtfsRawEntries, NtfsRawEntry,
    NtfsScanControl, NtfsScanError, NtfsScanProgress, NtfsVolumeInfo, ROOT_RECORD_NUMBER,
};

#[test]
fn parse_should_read_file_record_header() {
    let mut record = [0_u8; 64];
    record[0..4].copy_from_slice(b"FILE");
    record[16..18].copy_from_slice(&7_u16.to_le_bytes());
    record[18..20].copy_from_slice(&2_u16.to_le_bytes());
    record[20..22].copy_from_slice(&56_u16.to_le_bytes());
    record[22..24].copy_from_slice(&3_u16.to_le_bytes());
    record[24..28].copy_from_slice(&256_u32.to_le_bytes());
    record[28..32].copy_from_slice(&1024_u32.to_le_bytes());
    record[32..40].copy_from_slice(&9_u64.to_le_bytes());
    record[40..42].copy_from_slice(&4_u16.to_le_bytes());
    record[44..48].copy_from_slice(&42_u32.to_le_bytes());

    let header = FileRecordHeader::parse(&record).unwrap();

    assert_eq!(header.sequence_number, 7);
    assert_eq!(header.hard_link_count, 2);
    assert!(header.is_in_use());
    assert!(header.is_directory());
    assert_eq!(header.first_attribute_offset, 56);
    assert_eq!(header.bytes_in_use, 256);
    assert_eq!(header.bytes_allocated, 1024);
    assert_eq!(header.base_file_record, 9);
    assert_eq!(header.next_attribute_id, 4);
    assert_eq!(header.record_number, 42);
}

#[test]
fn parse_should_reject_invalid_signature() {
    let record = [0_u8; 64];

    let error = FileRecordHeader::parse(&record).unwrap_err();

    assert_eq!(error, MftParseError::InvalidSignature);
}

#[test]
fn a_record_must_hold_a_header() {
    let error = FileRecordHeader::parse(&[0_u8; 47]).unwrap_err();

    assert_eq!(error, MftParseError::TooShort { actual: 47 });
}

#[test]
fn apply_fixups_should_restore_sector_trailers() {
    let mut record = [0_u8; 1024];
    record[0..4].copy_from_slice(b"FILE");
    record[4..6].copy_from_slice(&48_u16.to_le_bytes());
    record[6..8].copy_from_slice(&3_u16.to_le_bytes());
    record[48..50].copy_from_slice(&0xAAAA_u16.to_le_bytes());
    record[50..52].copy_from_slice(&0xBBBB_u16.to_le_bytes());
    record[52..54].copy_from_slice(&0xCCCC_u16.to_le_bytes());
    record[510..512].copy_from_slice(&0xAAAA_u16.to_le_bytes());
    record[1022..1024].copy_from_slice(&0xAAAA_u16.to_le_bytes());

    apply_fixups(&mut record, 512).unwrap();

    assert_eq!(&record[510..512], &0xBBBB_u16.to_le_bytes());
    assert_eq!(&record[1022..1024], &0xCCCC_u16.to_le_bytes());
}

#[test]
fn a_sector_without_its_mark_is_rejected() {
    let mut record = [0_u8; 1024];
    record[0..4].copy_from_slice(b"FILE");
    record[4..6].copy_from_slice(&48_u16.to_le_bytes());
    record[6..8].copy_from_slice(&3_u16.to_le_bytes());
    record[48..50].copy_from_slice(&0xAAAA_u16.to_le_bytes());

    assert_eq!(apply_fixups(&mut record, 512), Err(MftParseError::InvalidFixup));
}

#[test]
fn parse_runlist_should_decode_signed_relative_offsets() {
    let runs = parse_runlist(&[
        0x11, 0x03, 0x20, // 3 clusters at LCN 32
        0x11, 0x02, 0xF0, // 2 clusters at LCN 16
        0x00,
    ])
    .unwrap();

    assert_eq!(
        runs,
        [
            DataRun {
                lcn: Some(32),
                clusters: 3
            },
            DataRun {
                lcn: Some(16),
                clusters: 2
            }
        ]
    );
}

#[test]
fn a_run_without_an_offset_is_sparse() {
    let runs = parse_runlist(&[0x01, 0x05, 0x11, 0x01, 0x08, 0x00]).unwrap();

    assert_eq!(
        runs,
        [
            DataRun {
                lcn: None,
                clusters: 5
            },
            DataRun {
                lcn: Some(8),
                clusters: 1
            }
        ]
    );
}

#[test]
fn a_runlist_that_is_cut_short_is_rejected() {
    assert_eq!(parse_runlist(&[0x11, 0x03]), Err(MftParseError::InvalidRunlist));
    assert_eq!(parse_runlist(&[0x10, 0x03]), Err(MftParseError::InvalidRunlist));
    assert_eq!(parse_runlist(&[]), Err(MftParseError::InvalidRunlist));
    assert_eq!(parse_runlist(&[0x00]), Ok(Vec::new()));
}

#[test]
fn numbers_are_read_from_the_lowest_byte() {
    assert_eq!(read_uint_le(&[0x34, 0x12]), 0x1234);
    assert_eq!(read_int_le(&[0xff]), -1);
    assert_eq!(read_int_le(&[0x00, 0x80]), -32768);
    assert_eq!(read_int_le(&[0x7f]), 127);
}

#[test]
fn times_count_from_the_year_1970() {
    assert_eq!(filetime_to_unix(116_444_736_000_000_000), 0);
    assert_eq!(filetime_to_unix(116_444_736_000_000_000 + 10_000_000), 1);
    assert_eq!(filetime_to_unix(0), -11_644_473_600);
}

fn write_file_name_attribute(output: &mut [u8], name: &str) -> usize {
    let name_units = name.encode_utf16().collect::<Vec<_>>();
    let value_len = 66 + name_units.len() * 2;
    let attr_len = 24 + value_len;
    output[0..4].copy_from_slice(&ATTR_FILE_NAME.to_le_bytes());
    output[4..8].copy_from_slice(&(attr_len as u32).to_le_bytes());
    output[16..20].copy_from_slice(&(value_len as u32).to_le_bytes());
    output[20..22].copy_from_slice(&24_u16.to_le_bytes());
    output[24..32].copy_from_slice(&5_u64.to_le_bytes());
    output[64..72].copy_from_slice(&123_u64.to_le_bytes());
    output[72..80].copy_from_slice(&456_u64.to_le_bytes());
    output[80..84].copy_from_slice(&0_u32.to_le_bytes());
    output[88] = name_units.len() as u8;
    output[89] = 1;
    for (idx, unit) in name_units.iter().enumerate() {
        let start = 90 + idx * 2;
        output[start..start + 2].copy_from_slice(&unit.to_le_bytes());
    }
    attr_len
}

fn write_data_attribute(output: &mut [u8]) -> usize {
    let runlist = [0x11, 0x04, 0x20, 0x00];
    let attr_len = 64 + runlist.len();
    output[0..4].copy_from_slice(&ATTR_DATA.to_le_bytes());
    output[4..8].copy_from_slice(&(attr_len as u32).to_le_bytes());
    output[8] = 1;
    output[32..34].copy_from_slice(&64_u16.to_le_bytes());
    output[40..48].copy_from_slice(&16_u64.to_le_bytes());
    output[48..56].copy_from_slice(&16_u64.to_le_bytes());
    output[64..64 + runlist.len()].copy_from_slice(&runlist);
    attr_len
}

fn file_record(name: &str) -> [u8; 1024] {
    let mut record = [0_u8; 1024];
    record[0..4].copy_from_slice(b"FILE");
    record[4..6].copy_from_slice(&48_u16.to_le_bytes());
    record[6..8].copy_from_slice(&3_u16.to_le_bytes());
    record[16..18].copy_from_slice(&1_u16.to_le_bytes());
    record[18..20].copy_from_slice(&1_u16.to_le_bytes());
    record[20..22].copy_from_slice(&56_u16.to_le_bytes());
    record[22..24].copy_from_slice(&1_u16.to_le_bytes());
    record[24..28].copy_from_slice(&256_u32.to_le_bytes());
    record[28..32].copy_from_slice(&1024_u32.to_le_bytes());
    record[44..48].copy_from_slice(&42_u32.to_le_bytes());
    record[48..50].copy_from_slice(&0xAAAA_u16.to_le_bytes());
    record[50..52].copy_from_slice(&0_u16.to_le_bytes());
    record[52..54].copy_from_slice(&0_u16.to_le_bytes());
    record[510..512].copy_from_slice(&0xAAAA_u16.to_le_bytes());
    record[1022..1024].copy_from_slice(&0xAAAA_u16.to_le_bytes());

    let name_offset = 56_usize;
    let name_attr_len = write_file_name_attribute(&mut record[name_offset..], name);
    let data_offset = name_offset + name_attr_len;
    let data_attr_len = write_data_attribute(&mut record[data_offset..]);
    let end = data_offset + data_attr_len;
    record[end..end + 4].copy_from_slice(&ATTR_END.to_le_bytes());
    record[24..28].copy_from_slice(&(end as u32 + 4).to_le_bytes());
    record
}

#[test]
fn parse_file_record_should_read_file_name_and_data_runs() {
    let record = file_record("hello.txt");

    let parsed = parse_file_record(&record, 512).unwrap();

    assert_eq!(parsed.header.record_number, 42);
    assert_eq!(parsed.file_names[0].name, "hello.txt");
    assert_eq!(parsed.data_size, 16);
    assert_eq!(
        parsed.data_runs,
        [DataRun {
            lcn: Some(32),
            clusters: 4
        }]
    );
}

#[test]
fn attributes_follow_each_other() {
    let record = file_record("hello.txt");
    let header = FileRecordHeader::parse(&record).unwrap();

    let spans = iter_attributes(&record, header).unwrap();

    assert_eq!(spans.len(), 2);
    assert_eq!(spans[0].kind, ATTR_FILE_NAME);
    assert_eq!(spans[0].start, 56);
    assert!(!spans[0].non_resident);
    assert_eq!(spans[1].kind, ATTR_DATA);
    assert!(spans[1].non_resident);
    assert_eq!(spans[1].start, 56 + spans[0].length as usize);
    let attribute = &record[56..spans[1].start];
    assert_eq!(resident_value(attribute).unwrap(), &attribute[24..]);
    assert_eq!(parse_file_name(attribute).unwrap().name, "hello.txt");
}

#[test]
fn an_attribute_without_length_is_rejected() {
    let mut record = file_record("hello.txt");
    record[60..64].copy_from_slice(&0_u32.to_le_bytes());

    let error = parse_file_record(&record, 512).unwrap_err();

    assert_eq!(error, MftParseError::InvalidAttributeLength { offset: 56, length: 0 });
}

#[test]
fn a_name_that_is_cut_short_is_rejected() {
    assert_eq!(parse_file_name(&[0_u8; 65]).unwrap_err(), MftParseError::InvalidFileName);
    let mut attribute = [0_u8; 90];
    attribute[16..20].copy_from_slice(&66_u32.to_le_bytes());
    attribute[20..22].copy_from_slice(&24_u16.to_le_bytes());
    assert_eq!(parse_file_name(&attribute).unwrap().name, "");
    attribute[88] = 1;
    assert_eq!(parse_file_name(&attribute).unwrap_err(), MftParseError::InvalidFileName);
}

#[test]
fn a_record_is_scanned_in_place() {
    let mut record = file_record("hello.txt");

    let scanned = parse_scanned_file_record_in_place(&mut record, 512).unwrap();

    let file_name = scanned.file_name.unwrap();
    assert_eq!(file_name.name, "hello.txt");
    assert_eq!(file_name.parent_record_number, 5);
    assert_eq!(file_name.allocated_size, 123);
    assert_eq!(file_name.data_size, 456);
    assert_eq!(scanned.data_size, 16);
    assert_eq!(scanned.allocated_size, 16);
    assert_eq!(scanned.standard_modified_unix, None);
    assert_eq!(&record[510..512], &[0, 0]);
    assert_eq!(ATTR_STANDARD_INFORMATION, 0x10);
}

#[test]
fn volume_device_path_should_accept_drive_root() {
    assert_eq!(volume_device_path("c:\\").unwrap(), r"\\.\C:");
}

#[test]
fn volume_device_path_should_accept_existing_device_path() {
    assert_eq!(volume_device_path(r"\\.\D:").unwrap(), r"\\.\D:");
}

#[test]
fn what_is_no_volume_has_no_device() {
    assert_eq!(
        volume_device_path("c:\\Users").unwrap_err(),
        NtfsScanError::InvalidVolume("c:\\Users".to_owned())
    );
    assert_eq!(
        volume_device_path("").unwrap_err(),
        NtfsScanError::InvalidVolume(String::new())
    );
}

#[test]
fn a_volume_is_named_by_its_root() {
    assert_eq!(root_display_name("C:"), "C:\\");
    assert_eq!(root_display_name("C:\\data\\"), "C:\\data");
    assert_eq!(root_display_name("\\"), "\\");
    assert_eq!(to_wide("C:"), vec![67, 58, 0]);
}

fn root_entry() -> NtfsRawEntry {
    NtfsRawEntry {
        parent_record_number: None,
        name: ".".to_owned(),
        kind: FileKind::Directory,
        size: 0,
        allocated: 0,
        modified_unix: 0,
        hard_links: 1,
    }
}

fn file_entry(parent: u64, name: &str, size: u64, allocated: u64, hard_links: u16) -> NtfsRawEntry {
    NtfsRawEntry {
        parent_record_number: Some(parent),
        name: name.to_owned(),
        kind: FileKind::File,
        size,
        allocated,
        modified_unix: 0,
        hard_links,
    }
}

#[test]
fn build_graph_from_entries_should_reconstruct_parent_chain() {
    let mut entries = NtfsRawEntries::with_len(43);
    entries.insert(ROOT_RECORD_NUMBER as usize, root_entry());
    entries.insert(42, file_entry(ROOT_RECORD_NUMBER, "data.bin", 10, 16, 2));

    let graph = build_graph_from_entries(entries, "C:\\".to_owned()).unwrap();
    let file = graph
        .ids()
        .into_iter()
        .find(|id| graph.name(*id) == Some("data.bin"))
        .unwrap();

    assert_eq!(graph.reconstruct_path(file).unwrap(), "C:\\data.bin");
    assert!(graph
        .entry(file)
        .unwrap()
        .flags
        .contains(EntryFlags::HARD_LINK));
}

#[test]
fn build_graph_from_entries_should_attach_orphans_to_volume_root() {
    let mut entries = NtfsRawEntries::with_len(43);
    entries.insert(ROOT_RECORD_NUMBER as usize, root_entry());
    entries.insert(42, file_entry(999, "orphan.bin", 10, 16, 1));

    let graph = build_graph_from_entries(entries, "C:\\".to_owned()).unwrap();
    let root_count = graph
        .ids()
        .into_iter()
        .filter(|id| graph.entry(*id).is_some_and(|entry| entry.parent.is_none()))
        .count();
    let orphan = graph
        .ids()
        .into_iter()
        .find(|id| graph.name(*id) == Some("orphan.bin"))
        .unwrap();

    assert_eq!(root_count, 1);
    assert_eq!(graph.reconstruct_path(orphan).unwrap(), "C:\\orphan.bin");
}

#[test]
fn build_graph_from_entries_should_skip_children_under_reserved_metadata() {
    let mut entries = NtfsRawEntries::with_len(43);
    entries.insert(ROOT_RECORD_NUMBER as usize, root_entry());
    entries.insert(
        42,
        file_entry(8, "$BadClus", 500_000_000_000, 500_000_000_000, 1),
    );

    let graph = build_graph_from_entries(entries, "C:\\".to_owned()).unwrap();

    assert!(graph
        .ids()
        .into_iter()
        .all(|id| graph.name(id) != Some("$BadClus")));
    assert_eq!(graph.len(), 1);
}

#[test]
fn all_that_lies_under_reserved_metadata_is_left_out() {
    let mut entries = NtfsRawEntries::with_len(44);
    entries.insert(ROOT_RECORD_NUMBER as usize, root_entry());
    let mut meta = file_entry(8, "meta", 0, 0, 1);
    meta.kind = FileKind::Directory;
    entries.insert(42, meta);
    entries.insert(43, file_entry(42, "inner.bin", 10, 16, 1));

    let graph = build_graph_from_entries(entries, "C:\\".to_owned()).unwrap();

    assert_eq!(graph.len(), 1);

    // The same chain below an orphan stays.
    let mut entries = NtfsRawEntries::with_len(46);
    entries.insert(ROOT_RECORD_NUMBER as usize, root_entry());
    let mut orphan = file_entry(999, "orphan", 0, 0, 1);
    orphan.kind = FileKind::Directory;
    entries.insert(44, orphan);
    entries.insert(43, file_entry(44, "inner.bin", 10, 16, 1));
    let mut meta = file_entry(8, "meta", 0, 0, 1);
    meta.kind = FileKind::Directory;
    entries.insert(42, meta);
    let mut deep = file_entry(42, "deep", 0, 0, 1);
    deep.kind = FileKind::Directory;
    entries.insert(40, deep);
    entries.insert(39, file_entry(40, "deepest.bin", 1, 1, 1));

    let graph = build_graph_from_entries(entries, "C:\\".to_owned()).unwrap();

    let mut paths: Vec<String> = graph
        .ids()
        .into_iter()
        .map(|id| graph.reconstruct_path(id).unwrap())
        .collect();
    paths.sort();
    assert_eq!(paths, ["C:\\", "C:\\orphan", "C:\\orphan\\inner.bin"]);
}

#[test]
fn every_entry_is_placed_once_even_in_a_circle() {
    let mut entries = NtfsRawEntries::with_len(64);
    entries.insert(ROOT_RECORD_NUMBER as usize, root_entry());
    let mut first = file_entry(41, "first", 1, 1, 1);
    first.kind = FileKind::Directory;
    let mut second = file_entry(40, "second", 2, 2, 1);
    second.kind = FileKind::Directory;
    entries.insert(40, first);
    entries.insert(41, second);
    entries.insert(63, file_entry(40, "leaf", 4, 4, 1));
    assert_eq!(entries.len(), 64);
    assert!(entries.is_present(40));
    assert_eq!(entries.parent_record_number(63), Some(40));
    assert!(entries.get(39).is_none());

    let graph = build_graph_from_entries(entries, "C:\\".to_owned()).unwrap();

    assert_eq!(graph.len(), 4);
    assert_eq!(total_below_roots(&graph), 7);
}

fn total_below_roots(graph: &FileGraph) -> u64 {
    graph
        .ids()
        .into_iter()
        .filter(|id| graph.entry(*id).unwrap().parent.is_none())
        .map(|id| graph.stats(id).unwrap().total_size.bytes())
        .sum()
}

fn scanned(record_number: u32, name: &str, size: u64, allocated: u64) -> ScannedFileRecord {
    ScannedFileRecord {
        header: FileRecordHeader {
            sequence_number: 1,
            hard_link_count: 1,
            first_attribute_offset: 56,
            flags: 0x0001,
            bytes_in_use: 0,
            bytes_allocated: 0,
            base_file_record: 0,
            next_attribute_id: 0,
            record_number,
        },
        standard_modified_unix: Some(200),
        file_name: Some(ScannedFileNameAttribute {
            parent_record_number: ROOT_RECORD_NUMBER,
            allocated_size: allocated,
            data_size: size,
            modified_unix: 100,
            name: name.to_owned(),
        }),
        data_size: size,
        allocated_size: allocated,
    }
}

#[test]
fn raw_entry_from_scanned_record_should_skip_reserved_metadata_records() {
    let parsed = scanned(8, "$BadClus", 500_000_000_000, 500_000_000_000);

    assert!(raw_entry_from_scanned_record(8, parsed).is_none());
    assert!(is_reserved_metadata_record(8));
    assert!(!is_reserved_metadata_record(ROOT_RECORD_NUMBER));
}

#[test]
fn raw_entry_from_scanned_record_should_prefer_standard_information_modified_time() {
    let parsed = scanned(42, "data.bin", 10, 16);

    let entry = raw_entry_from_scanned_record(42, parsed).unwrap();

    assert_eq!(entry.modified_unix, 200);
}

#[test]
fn ntfs_progress_should_emit_first_interval_and_final_snapshots() {
    let mut last_records = 0;
    let mut snapshots = Vec::new();

    for progress in [
        NtfsScanProgress {
            records_read: 1,
            entries: 1,
            files: 1,
            directories: 0,
            skipped: 0,
        },
        NtfsScanProgress {
            records_read: 3,
            entries: 2,
            files: 2,
            directories: 0,
            skipped: 1,
        },
        NtfsScanProgress {
            records_read: 4,
            entries: 3,
            files: 2,
            directories: 1,
            skipped: 1,
        },
    ] {
        if let Some(progress) = maybe_emit_ntfs_progress(progress, 4, &mut last_records) {
            snapshots.push(progress.records_read);
            heed_control(NtfsScanControl::Continue).unwrap();
        }
    }
    if let Some(progress) = emit_ntfs_progress(
        NtfsScanProgress {
            records_read: 5,
            entries: 4,
            files: 3,
            directories: 1,
            skipped: 1,
        },
        4,
        &mut last_records,
    ) {
        snapshots.push(progress.records_read);
    }

    assert_eq!(snapshots, vec![1, 4, 5]);
}

#[test]
fn ntfs_progress_should_return_cancelled_when_callback_cancels() {
    let mut last_records = 0;

    let told = emit_ntfs_progress(
        NtfsScanProgress {
            records_read: 1,
            entries: 1,
            files: 1,
            directories: 0,
            skipped: 0,
        },
        1,
        &mut last_records,
    );
    assert!(told.is_some());
    let error = heed_control(NtfsScanControl::Cancel).unwrap_err();

    assert!(matches!(error, NtfsScanError::Cancelled));
}

#[test]
fn records_per_mft_chunk_should_batch_records_with_floor_of_one() {
    assert_eq!(records_per_mft_chunk(1024), 8_192);
    assert_eq!(records_per_mft_chunk(16 * 1024 * 1024), 1);
    assert_eq!(records_per_mft_chunk(0), 1);
}

#[test]
fn process_mft_record_should_count_parse_failures_as_skipped() {
    let mut progress = NtfsScanProgress::default();
    let mut record = [0_u8; 64];

    let entry = process_mft_record(42, &mut record, 512, &mut progress);

    assert!(entry.is_none());
    assert_eq!(progress.records_read, 1);
    assert_eq!(progress.skipped, 1);
}

#[test]
fn the_parts_of_a_chunk_merge_to_the_whole() {
    let mut buffer = Vec::new();
    buffer.extend_from_slice(&file_record("a.txt"));
    buffer.extend_from_slice(&[0_u8; 1024]);
    buffer.extend_from_slice(&file_record("b.txt"));

    let (entries, whole) = process_mft_record_range(40, 3, 1024, 512, &buffer);
    let (_, first) = process_mft_record_range(40, 1, 1024, 512, &buffer[..1024]);
    let (_, second) = process_mft_record_range(41, 2, 1024, 512, &buffer[1024..]);
    let mut merged = first;
    merged.merge(second);

    assert_eq!(entries.len(), 3);
    assert!(entries[1].is_none());
    assert_eq!(entries[2].as_ref().unwrap().name, "b.txt");
    assert_eq!(
        whole,
        NtfsChunkResult {
            records_read: 3,
            entries: 2,
            files: 2,
            directories: 0,
            skipped: 1
        }
    );
    assert_eq!(merged, whole);

    let mut kept = NtfsRawEntries::with_len(64);
    let chunk = process_mft_record_chunk(40, 3, 1024, 512, &buffer, &mut kept);
    assert_eq!(chunk, whole);
    assert_eq!(kept.get(40).unwrap().name, "a.txt");
    assert!(!kept.is_present(41));
}

#[test]
fn clusters_have_places_in_bytes() {
    assert_eq!(lcn_to_offset(3, 4096), Ok(12_288));
    assert_eq!(lcn_to_offset(-1, 4096), Err(NtfsScanError::IntegerOverflow));
    assert_eq!(lcn_to_offset(i64::MAX, 4096), Err(NtfsScanError::IntegerOverflow));
}

fn volume_info() -> NtfsVolumeInfo {
    NtfsVolumeInfo {
        volume_serial_number: 9,
        bytes_per_sector: 512,
        bytes_per_cluster: 4096,
        bytes_per_file_record: 1024,
        mft_valid_data_length: 4096,
        mft_start_lcn: 4,
    }
}

#[test]
fn a_volume_is_described() {
    assert_eq!(
        volume_info().describe(),
        "serial=9 bytes_per_cluster=4096 bytes_per_file_record=1024 mft_lcn=4 mft_valid_data=4096"
    );
}

#[test]
fn the_table_is_read_run_by_run() {
    let info = volume_info();
    assert_eq!(first_record_offset(&info), Ok(16_384));

    let mut record = file_record("$MFT");
    record[202..210].copy_from_slice(&4096_u64.to_le_bytes());
    let plan = plan_mft_read(&info, &record, 2).unwrap();
    assert_eq!(plan.record_count, 4);
    assert_eq!(
        plan.runs,
        vec![DataRun {
            lcn: Some(32),
            clusters: 4
        }]
    );

    let mut reader = MftReader::new(plan).unwrap();
    let read = reader.next_read().unwrap().unwrap();
    assert_eq!(read.offset, 32 * 4096);
    assert_eq!(read.records, 4);
    assert_eq!(read.bytes, 4096);

    let buffer = vec![0_u8; 4096];
    let (_, told) = reader.accept(&buffer, 4096);
    assert!(told.is_some());
    assert!(reader.next_read().unwrap().is_none());
    let (entries, _) = reader.finish();
    assert_eq!(entries.len(), 4);
}

#[test]
fn a_table_without_runs_cannot_be_read() {
    let mut record = file_record("$MFT");
    let end = 56 + 24 + 66 + 8;
    record[end..end + 4].copy_from_slice(&ATTR_END.to_le_bytes());

    let error = plan_mft_read(&volume_info(), &record, 0).unwrap_err();

    assert_eq!(error, NtfsScanError::MissingMftDataRuns);
}

#[test]
fn records_without_a_size_are_refused_as_they_are_read() {
    let info = NtfsVolumeInfo {
        bytes_per_file_record: 0,
        ..volume_info()
    };

    let error = plan_mft_read(&info, &[], 0).unwrap_err();

    assert_eq!(error, NtfsScanError::Parse(MftParseError::InvalidFixup));
}

#[test]
fn a_whole_reading_finds_every_record_where_its_run_puts_it() {
    // Two runs with a sparse one between them: records 0 to 15 stand from cluster 2 on, records 16
    // to 19 nowhere, and records 20 to 23 in cluster 1.
    let plan = MftReadPlan {
        bytes_per_sector: 512,
        bytes_per_cluster: 4096,
        bytes_per_file_record: 1024,
        runs: vec![
            DataRun {
                lcn: Some(2),
                clusters: 4,
            },
            DataRun {
                lcn: None,
                clusters: 1,
            },
            DataRun {
                lcn: Some(1),
                clusters: 1,
            },
        ],
        record_count: 24,
        progress_every: 0,
    };
    let mut volume = vec![0_u8; 6 * 4096];
    let named = file_record("late.txt");
    volume[4096 + 1024..4096 + 1024 + named.len()].copy_from_slice(&named);

    let mut reader = MftReader::new(plan).unwrap();
    let mut offsets = Vec::new();
    while let Some(read) = reader.next_read().unwrap() {
        let offset = usize::try_from(read.offset).unwrap();
        offsets.push((offset, read.records));
        let (goes_on, _) = reader.accept(&volume[offset..offset + read.bytes], read.bytes);
        assert!(goes_on);
    }
    let (entries, _) = reader.finish();

    assert_eq!(offsets, vec![(2 * 4096, 16), (4096, 4)]);
    assert_eq!(entries.len(), 24);
    assert_eq!(entries.get(21).unwrap().name, "late.txt");
    for number in 0..24 {
        assert_eq!(entries.get(number).is_some(), number == 21, "record {number}");
    }
}
