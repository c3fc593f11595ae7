//! What the direct NTFS scan makes of the records it reads, one by one.

use vstd::prelude::*;

use crate::graph::{FileGraphError, FileKind};
use crate::mft::MftParseError;
use crate::numbers::{decimal, decimal_int, push_decimal, push_decimal_int};
use crate::scanned::{parse_scanned_file_record_in_place, scan_record, ScannedFileRecord,
    ScannedView};
use crate::targets::{all_separators, lemma_separators_off};
use crate::text::{ascii_upper, ascii_upper_spec, chars_of, encode_utf16, end_without_separators,
    is_ascii_letter, is_ascii_letter_spec, is_separator_spec, matches_at, push_text, starts_with_spec,
    string_of, trim_end_by, trim_separators, utf16_units};

verus! {

/// The record of the root directory.
pub const ROOT_RECORD_NUMBER: u64 = 5;

/// The record of the directory of optional extensions.
pub const EXTEND_RECORD_NUMBER: u64 = 11;

/// How many records at the start of the table are reserved for metadata.
pub const RESERVED_METADATA_RECORDS: u64 = 16;

/// How many bytes are read at once.
pub const MFT_READ_CHUNK_BYTES: usize = 8_388_608;

/// Stands in the place of a parent's record number where there is no parent.
pub const NO_PARENT_RECORD: u64 = u64::MAX;

/// The direct NTFS scanner.
#[derive(Debug)]
pub struct NtfsScanner;

/// How far a scan has come.
#[derive(Debug, Clone, Copy, PartialEq, Eq, Structural)]
pub struct NtfsScanProgress {
    pub records_read: u64,
    pub entries: u64,
    pub files: u64,
    pub directories: u64,
    pub skipped: u64,
}

impl Default for NtfsScanProgress {
    fn default() -> (r: Self)
        ensures
            r == (NtfsScanProgress {
                records_read: 0,
                entries: 0,
                files: 0,
                directories: 0,
                skipped: 0,
            }),
    {
        NtfsScanProgress { records_read: 0, entries: 0, files: 0, directories: 0, skipped: 0 }
    }
}

/// Whether a scan goes on.
#[derive(Debug, Clone, Copy, PartialEq, Eq, Structural)]
pub enum NtfsScanControl {
    Continue,
    Cancel,
}

/// What a volume tells of itself.
#[derive(Debug, Clone, Copy, PartialEq, Eq, Structural)]
pub struct NtfsVolumeInfo {
    pub volume_serial_number: i64,
    pub bytes_per_sector: u32,
    pub bytes_per_cluster: u32,
    pub bytes_per_file_record: u32,
    pub mft_valid_data_length: i64,
    pub mft_start_lcn: i64,
}

/// Why a direct scan failed.
#[derive(Debug, Clone, PartialEq, Eq)]
pub enum NtfsScanError {
    /// Direct scans need Windows.
    UnsupportedPlatform,
    /// The scan could not be completed.
    MftScanIncomplete,
    /// The scan was cancelled.
    Cancelled,
    /// A worker of the scan failed.
    WorkerPanic,
    /// The table's own record has no data runs.
    MissingMftDataRuns,
    /// An offset does not fit.
    IntegerOverflow,
    /// The text names no volume.
    InvalidVolume(String),
    /// A file record could not be read.
    Parse(MftParseError),
    /// The graph refused an entry.
    Graph(FileGraphError),
}

impl NtfsVolumeInfo {
    /// The line that tells of the volume.
    pub open spec fn description(&self) -> Seq<char> {
        "serial="@ + decimal_int(self.volume_serial_number as int) + " bytes_per_cluster="@ + decimal(
            self.bytes_per_cluster as nat,
        ) + " bytes_per_file_record="@ + decimal(self.bytes_per_file_record as nat) + " mft_lcn="@
            + decimal_int(self.mft_start_lcn as int) + " mft_valid_data="@ + decimal_int(
            self.mft_valid_data_length as int,
        )
    }

    /// The line that tells of the volume.
    #[must_use]
    pub fn describe(&self) -> (r: String)
        ensures
            r@ == self.description(),
    {
        let mut r = "serial=".to_owned();
        push_decimal_int(&mut r, self.volume_serial_number);
        push_text(&mut r, " bytes_per_cluster=");
        push_decimal(&mut r, self.bytes_per_cluster as u128);
        push_text(&mut r, " bytes_per_file_record=");
        push_decimal(&mut r, self.bytes_per_file_record as u128);
        push_text(&mut r, " mft_lcn=");
        push_decimal_int(&mut r, self.mft_start_lcn);
        push_text(&mut r, " mft_valid_data=");
        push_decimal_int(&mut r, self.mft_valid_data_length);
        r
    }
}

// ---------------------------------------------------------------------------------------------
// Records
// ---------------------------------------------------------------------------------------------

/// A file or directory that a record tells of.
#[derive(Debug, Clone, PartialEq, Eq)]
pub struct NtfsRawEntry {
    pub parent_record_number: Option<u64>,
    pub name: String,
    pub kind: FileKind,
    pub size: u64,
    pub allocated: u64,
    pub modified_unix: i64,
    pub hard_links: u16,
}

/// A file or directory that a record tells of, as the contracts speak of it.
pub struct RawEntryView {
    pub parent_record_number: Option<u64>,
    pub name: Seq<char>,
    pub kind: FileKind,
    pub size: u64,
    pub allocated: u64,
    pub modified_unix: i64,
    pub hard_links: u16,
}

impl View for NtfsRawEntry {
    type V = RawEntryView;

    open spec fn view(&self) -> RawEntryView {
        RawEntryView {
            parent_record_number: self.parent_record_number,
            name: self.name@,
            kind: self.kind,
            size: self.size,
            allocated: self.allocated,
            modified_unix: self.modified_unix,
            hard_links: self.hard_links,
        }
    }
}

/// Whether the record holds metadata of the file system itself, other than the root directory and
/// the directory of extensions.
pub open spec fn is_reserved(record_number: u64) -> bool {
    &&& record_number < RESERVED_METADATA_RECORDS
    &&& record_number != ROOT_RECORD_NUMBER
    &&& record_number != EXTEND_RECORD_NUMBER
}

/// Whether the record holds metadata of the file system itself.
pub fn is_reserved_metadata_record(record_number: u64) -> (r: bool)
    ensures
        r == is_reserved(record_number),
{
    record_number < RESERVED_METADATA_RECORDS && record_number != ROOT_RECORD_NUMBER && record_number
        != EXTEND_RECORD_NUMBER
}

/// `value`, or `other` where it is zero.
pub open spec fn or_else(value: u64, other: u64) -> u64 {
    if value > 0 {
        value
    } else {
        other
    }
}

/// The entry that a scanned record tells of: none for a record that is unused, extends another or
/// holds metadata, or that has no name.
pub open spec fn raw_entry(record_number: u64, record: ScannedView) -> Option<RawEntryView> {
    let directory = record.header.flags & 2 != 0;
    if record.header.flags & 1 == 0 || record.header.base_file_record != 0 || is_reserved(
        record_number,
    ) {
        None
    } else {
        match record.file_name {
            None => None,
            Some(name) => Some(
                RawEntryView {
                    parent_record_number: if name.parent_record_number != record_number {
                        Some(name.parent_record_number)
                    } else {
                        None
                    },
                    name: name.name,
                    kind: if directory {
                        FileKind::Directory
                    } else {
                        FileKind::File
                    },
                    size: if directory {
                        0
                    } else {
                        or_else(record.data_size, name.data_size)
                    },
                    allocated: if directory {
                        0
                    } else {
                        or_else(record.allocated_size, name.allocated_size)
                    },
                    modified_unix: match record.standard_modified_unix {
                        Some(modified) => modified,
                        None => name.modified_unix,
                    },
                    hard_links: record.header.hard_link_count,
                },
            ),
        }
    }
}

/// The entry as the contracts speak of it.
pub open spec fn entry_model(entry: Option<NtfsRawEntry>) -> Option<RawEntryView> {
    match entry {
        Some(entry) => Some(entry@),
        None => None,
    }
}

/// The scanned record as the contracts speak of it.
pub open spec fn scanned_model(record: ScannedFileRecord) -> ScannedView {
    ScannedView {
        header: record.header,
        standard_modified_unix: record.standard_modified_unix,
        file_name: match record.file_name {
            Some(name) => Some(
                crate::mft::FileNameView {
                    parent_reference: 0,
                    parent_record_number: name.parent_record_number,
                    allocated_size: name.allocated_size,
                    data_size: name.data_size,
                    flags: 0,
                    modified_unix: name.modified_unix,
                    namespace: 0,
                    name: name.name@,
                },
            ),
            None => None,
        },
        data_size: record.data_size,
        allocated_size: record.allocated_size,
    }
}

/// The entry that a scanned record tells of.
pub fn raw_entry_from_scanned_record(record_number: u64, parsed: ScannedFileRecord) -> (r: Option<
    NtfsRawEntry,
>)
    ensures
        entry_model(r) == raw_entry(record_number, scanned_model(parsed)),
{
    if !parsed.header.is_in_use() || parsed.header.base_file_record != 0 {
        return None;
    }
    if is_reserved_metadata_record(record_number) {
        return None;
    }
    let is_directory = parsed.header.is_directory();
    match parsed.file_name {
        None => None,
        Some(name) => {
            let size: u64 = if is_directory {
                0
            } else if parsed.data_size > 0 {
                parsed.data_size
            } else {
                name.data_size
            };
            let allocated: u64 = if is_directory {
                0
            } else if parsed.allocated_size > 0 {
                parsed.allocated_size
            } else {
                name.allocated_size
            };
            let parent_record_number = if name.parent_record_number != record_number {
                Some(name.parent_record_number)
            } else {
                None
            };
            let modified_unix: i64 = match parsed.standard_modified_unix {
                Some(modified) => modified,
                None => name.modified_unix,
            };
            Some(
                NtfsRawEntry {
                    parent_record_number,
                    name: name.name,
                    kind: if is_directory {
                        FileKind::Directory
                    } else {
                        FileKind::File
                    },
                    size,
                    allocated,
                    modified_unix,
                    hard_links: parsed.header.hard_link_count,
                },
            )
        },
    }
}

/// The entry that the bytes of a record tell of: none where they cannot be read.
pub open spec fn entry_of_bytes(record_number: u64, record: Seq<u8>, sector: int) -> Option<
    RawEntryView,
> {
    match scan_record(record, sector) {
        Ok(scanned) => raw_entry(record_number, scanned),
        Err(_) => None,
    }
}

/// The entry that the bytes of a record tell of; the record's fixups are applied in place.
pub fn parse_mft_record_entry(record_number: u64, record: &mut [u8], bytes_per_sector: u32) -> (r: Option<
    NtfsRawEntry,
>)
    ensures
        entry_model(r) == entry_of_bytes(record_number, old(record)@, bytes_per_sector as int),
{
    match parse_scanned_file_record_in_place(record, bytes_per_sector) {
        Ok(parsed) => raw_entry_from_scanned_record(record_number, parsed),
        Err(_) => None,
    }
}

/// The progress after one more record, which told of `entry`.
pub open spec fn progress_after(progress: NtfsScanProgress, entry: Option<RawEntryView>) -> NtfsScanProgress {
    match entry {
        None => NtfsScanProgress {
            records_read: (progress.records_read + 1) as u64,
            skipped: (progress.skipped + 1) as u64,
            ..progress
        },
        Some(e) => if e.kind == FileKind::Directory {
            NtfsScanProgress {
                records_read: (progress.records_read + 1) as u64,
                entries: (progress.entries + 1) as u64,
                directories: (progress.directories + 1) as u64,
                ..progress
            }
        } else {
            NtfsScanProgress {
                records_read: (progress.records_read + 1) as u64,
                entries: (progress.entries + 1) as u64,
                files: (progress.files + 1) as u64,
                ..progress
            }
        },
    }
}

/// Reads one record and counts it.
pub fn process_mft_record(
    record_number: u64,
    record: &mut [u8],
    bytes_per_sector: u32,
    progress: &mut NtfsScanProgress,
) -> (r: Option<NtfsRawEntry>)
    requires
        old(progress).records_read < u64::MAX,
        old(progress).entries < u64::MAX,
        old(progress).files < u64::MAX,
        old(progress).directories < u64::MAX,
        old(progress).skipped < u64::MAX,
    ensures
        entry_model(r) == entry_of_bytes(record_number, old(record)@, bytes_per_sector as int),
        *final(progress) == progress_after(*old(progress), entry_model(r)),
{
    progress.records_read = progress.records_read + 1;
    match parse_mft_record_entry(record_number, record, bytes_per_sector) {
        Some(entry) => {
            progress.entries = progress.entries + 1;
            if entry.kind == FileKind::Directory {
                progress.directories = progress.directories + 1;
            } else {
                progress.files = progress.files + 1;
            }
            Some(entry)
        },
        None => {
            progress.skipped = progress.skipped + 1;
            None
        },
    }
}

// ---------------------------------------------------------------------------------------------
// Ranges of records
// ---------------------------------------------------------------------------------------------

/// What a stretch of records came to.
#[derive(Debug, Clone, Copy, PartialEq, Eq, Structural)]
pub struct NtfsChunkResult {
    pub records_read: u64,
    pub entries: u64,
    pub files: u64,
    pub directories: u64,
    pub skipped: u64,
}

impl Default for NtfsChunkResult {
    fn default() -> (r: Self)
        ensures
            r == tally(Seq::<Option<RawEntryView>>::empty()),
    {
        NtfsChunkResult { records_read: 0, entries: 0, files: 0, directories: 0, skipped: 0 }
    }
}

/// How many of the outcomes are directories, or other entries.
pub open spec fn count_kind(outcomes: Seq<Option<RawEntryView>>, directories: bool) -> nat
    decreases outcomes.len(),
{
    if outcomes.len() == 0 {
        0
    } else {
        count_kind(outcomes.drop_last(), directories) + match outcomes.last() {
            Some(e) => if (e.kind == FileKind::Directory) == directories {
                1nat
            } else {
                0
            },
            None => 0,
        }
    }
}

/// What the outcomes of reading a stretch of records come to.
pub open spec fn tally(outcomes: Seq<Option<RawEntryView>>) -> NtfsChunkResult {
    let files = count_kind(outcomes, false);
    let directories = count_kind(outcomes, true);
    NtfsChunkResult {
        records_read: outcomes.len() as u64,
        entries: (files + directories) as u64,
        files: files as u64,
        directories: directories as u64,
        skipped: (outcomes.len() - files - directories) as u64,
    }
}

/// The sum, held within 64 bits.
pub open spec fn capped_sum(a: u64, b: u64) -> u64 {
    if a + b > u64::MAX {
        u64::MAX
    } else {
        (a + b) as u64
    }
}

/// Two results taken together.
pub open spec fn merged(a: NtfsChunkResult, b: NtfsChunkResult) -> NtfsChunkResult {
    NtfsChunkResult {
        records_read: capped_sum(a.records_read, b.records_read),
        entries: capped_sum(a.entries, b.entries),
        files: capped_sum(a.files, b.files),
        directories: capped_sum(a.directories, b.directories),
        skipped: capped_sum(a.skipped, b.skipped),
    }
}

impl NtfsChunkResult {
    /// Counts an entry.
    pub fn count_entry(&mut self, kind: FileKind)
        requires
            old(self).entries < u64::MAX,
            old(self).files < u64::MAX,
            old(self).directories < u64::MAX,
        ensures
            final(self).entries == old(self).entries + 1,
            final(self).directories == old(self).directories + if kind == FileKind::Directory {
                1int
            } else {
                0
            },
            final(self).files == old(self).files + if kind == FileKind::Directory {
                0int
            } else {
                1
            },
            final(self).records_read == old(self).records_read,
            final(self).skipped == old(self).skipped,
    {
        self.entries = self.entries + 1;
        if kind == FileKind::Directory {
            self.directories = self.directories + 1;
        } else {
            self.files = self.files + 1;
        }
    }

    /// Adds another result to this one.
    pub fn merge(&mut self, other: Self)
        ensures
            *final(self) == merged(*old(self), other),
    {
        self.records_read = self.records_read.saturating_add(other.records_read);
        self.entries = self.entries.saturating_add(other.entries);
        self.files = self.files.saturating_add(other.files);
        self.directories = self.directories.saturating_add(other.directories);
        self.skipped = self.skipped.saturating_add(other.skipped);
    }
}

proof fn lemma_counts(outcomes: Seq<Option<RawEntryView>>)
    ensures
        count_kind(outcomes, false) + count_kind(outcomes, true) <= outcomes.len(),
    decreases outcomes.len(),
{
    if outcomes.len() > 0 {
        lemma_counts(outcomes.drop_last());
    }
}

proof fn lemma_counts_add(
    a: Seq<Option<RawEntryView>>,
    b: Seq<Option<RawEntryView>>,
    directories: bool,
)
    ensures
        count_kind(a + b, directories) == count_kind(a, directories) + count_kind(b, directories),
    decreases b.len(),
{
    if b.len() == 0 {
        assert(a + b =~= a);
    } else {
        assert((a + b).drop_last() =~= a + b.drop_last());
        lemma_counts_add(a, b.drop_last(), directories);
    }
}

/// A stretch of records may be read in two parts: their results merge to the result of the whole.
pub proof fn parts_merge_to_whole(a: Seq<Option<RawEntryView>>, b: Seq<Option<RawEntryView>>)
    requires
        a.len() + b.len() <= u64::MAX,
    ensures
        tally(a + b) == merged(tally(a), tally(b)),
{
    lemma_counts(a);
    lemma_counts(b);
    lemma_counts_add(a, b, false);
    lemma_counts_add(a, b, true);
}

/// The bytes of record `i` in a buffer of records of `size` bytes.
pub open spec fn record_bytes(buffer: Seq<u8>, size: int, i: int) -> Seq<u8> {
    buffer.subrange(i * size, i * size + size)
}

/// What reading `n` records of a buffer gives, record by record.
pub open spec fn outcomes(first: u64, n: nat, size: int, sector: int, buffer: Seq<u8>) -> Seq<
    Option<RawEntryView>,
> {
    Seq::new(
        n,
        |i: int| entry_of_bytes((first + i) as u64, record_bytes(buffer, size, i), sector),
    )
}

/// The entries as the contracts speak of them.
pub open spec fn entry_models(entries: Seq<Option<NtfsRawEntry>>) -> Seq<Option<RawEntryView>> {
    entries.map_values(|e: Option<NtfsRawEntry>| entry_model(e))
}

proof fn lemma_record_fits(i: int, n: int, size: int, len: int)
    by (nonlinear_arith)
    requires
        0 <= i < n,
        0 <= size,
        n * size <= len,
    ensures
        0 <= i * size,
        i * size + size <= len,
{
}

/// Reads `records_read` records of `record_size` bytes each, the first of which has the number
/// `first_record_number`.
pub fn process_mft_record_range(
    first_record_number: u64,
    records_read: usize,
    record_size: usize,
    bytes_per_sector: u32,
    buffer: &[u8],
) -> (r: (Vec<Option<NtfsRawEntry>>, NtfsChunkResult))
    requires
        records_read * record_size <= buffer@.len(),
        first_record_number + records_read <= u64::MAX,
    ensures
        entry_models(r.0@) == outcomes(
            first_record_number,
            records_read as nat,
            record_size as int,
            bytes_per_sector as int,
            buffer@,
        ),
        r.1 == tally(entry_models(r.0@)),
{
    let ghost sector = bytes_per_sector as int;
    let mut found: Vec<Option<NtfsRawEntry>> = Vec::new();
    let mut chunk = NtfsChunkResult::default();
    let mut i: usize = 0;
    assert(entry_models(found@) =~= Seq::<Option<RawEntryView>>::empty());
    while i < records_read
        invariant
            i <= records_read,
            sector == bytes_per_sector,
            records_read * record_size <= buffer@.len(),
            first_record_number + records_read <= u64::MAX,
            entry_models(found@) == outcomes(
                first_record_number,
                i as nat,
                record_size as int,
                sector,
                buffer@,
            ),
            chunk == tally(entry_models(found@)),
        decreases records_read - i,
    {
        proof {
            lemma_record_fits(i as int, records_read as int, record_size as int, buffer@.len() as int);
            assert(buffer.len() == buffer@.len());
            lemma_counts(entry_models(found@));
        }
        let start: usize = i * record_size;
        let mut record: Vec<u8> = vstd::slice::slice_to_vec(
            vstd::slice::slice_subrange(buffer, start, start + record_size),
        );
        let number: u64 = first_record_number + i as u64;
        let entry = parse_mft_record_entry(number, record.as_mut_slice(), bytes_per_sector);
        let ghost before = entry_models(found@);
        let ghost outcome = entry_model(entry);
        chunk.records_read = chunk.records_read + 1;
        match &entry {
            Some(e) => chunk.count_entry(e.kind),
            None => {
                chunk.skipped = chunk.skipped + 1;
            },
        }
        found.push(entry);
        i += 1;
        proof {
            assert(entry_models(found@) =~= before.push(outcome));
            assert(before.push(outcome).drop_last() =~= before);
            assert(entry_models(found@) =~= outcomes(
                first_record_number,
                i as nat,
                record_size as int,
                sector,
                buffer@,
            ));
            lemma_counts(entry_models(found@));
        }
    }
    (found, chunk)
}

/// How many records of this size are read at once.
pub open spec fn chunk_records(record_size: int) -> int {
    if record_size == 0 || MFT_READ_CHUNK_BYTES as int / record_size < 1 {
        1
    } else {
        MFT_READ_CHUNK_BYTES as int / record_size
    }
}

/// How many records of this size are read at once.
pub fn records_per_mft_chunk(record_size: usize) -> (r: usize)
    ensures
        r == chunk_records(record_size as int),
{
    if record_size == 0 {
        return 1;
    }
    let records: usize = MFT_READ_CHUNK_BYTES / record_size;
    if records < 1 {
        1
    } else {
        records
    }
}

// ---------------------------------------------------------------------------------------------
// Collected entries
// ---------------------------------------------------------------------------------------------

/// The entries of a volume by record number.
#[derive(Debug)]
pub struct NtfsRawEntries {
    entries: Vec<Option<NtfsRawEntry>>,
}

impl View for NtfsRawEntries {
    type V = Seq<Option<RawEntryView>>;

    closed spec fn view(&self) -> Seq<Option<RawEntryView>> {
        entry_models(self.entries@)
    }
}

/// The entry as it is kept: a parent numbered [`NO_PARENT_RECORD`] is none.
pub open spec fn kept_entry(entry: RawEntryView) -> RawEntryView {
    if entry.parent_record_number == Some(NO_PARENT_RECORD) {
        RawEntryView { parent_record_number: None, ..entry }
    } else {
        entry
    }
}

impl NtfsRawEntries {
    /// Room for `len` records, none of them present.
    #[must_use]
    pub fn with_len(len: usize) -> (r: Self)
        ensures
            r@ == Seq::new(len as nat, |i: int| None::<RawEntryView>),
    {
        let mut entries: Vec<Option<NtfsRawEntry>> = Vec::new();
        let mut i: usize = 0;
        while i < len
            invariant
                i <= len,
                entries@.len() == i,
                forall|k: int| 0 <= k < i ==> entries@[k] is None,
            decreases len - i,
        {
            entries.push(None);
            i += 1;
        }
        let r = Self { entries };
        assert(r@ =~= Seq::new(len as nat, |i: int| None::<RawEntryView>));
        r
    }

    /// How many records there is room for.
    #[must_use]
    pub fn len(&self) -> (r: usize)
        ensures
            r == self@.len(),
    {
        self.entries.len()
    }

    /// Whether the record told of an entry.
    #[must_use]
    pub fn is_present(&self, record_number: usize) -> (r: bool)
        ensures
            r == (record_number < self@.len() && self@[record_number as int] is Some),
    {
        if record_number < self.entries.len() {
            match &self.entries[record_number] {
                Some(_) => true,
                None => false,
            }
        } else {
            false
        }
    }

    /// Keeps the entry of a record, if there is room for it.
    pub fn insert(&mut self, record_number: usize, entry: NtfsRawEntry)
        ensures
            final(self)@ == if record_number < old(self)@.len() {
                old(self)@.update(record_number as int, Some(kept_entry(entry@)))
            } else {
                old(self)@
            },
    {
        if record_number >= self.entries.len() {
            return;
        }
        let ghost before = self@;
        let ghost expected = kept_entry(entry@);
        let parent_record_number = match entry.parent_record_number {
            Some(parent) => if parent == NO_PARENT_RECORD {
                None
            } else {
                Some(parent)
            },
            None => None,
        };
        let kept = NtfsRawEntry {
            parent_record_number,
            name: entry.name,
            kind: entry.kind,
            size: entry.size,
            allocated: entry.allocated,
            modified_unix: entry.modified_unix,
            hard_links: entry.hard_links,
        };
        self.entries.set(record_number, Some(kept));
        assert(self@ =~= before.update(record_number as int, Some(expected)));
    }

    /// The entry of a record.
    #[must_use]
    pub fn get(&self, record_number: usize) -> (r: Option<&NtfsRawEntry>)
        ensures
            r is Some == (record_number < self@.len() && self@[record_number as int] is Some),
            r matches Some(e) ==> Some(e@) == self@[record_number as int],
    {
        if record_number < self.entries.len() {
            match &self.entries[record_number] {
                Some(entry) => Some(entry),
                None => None,
            }
        } else {
            None
        }
    }

    /// The record number of the parent of a record's entry.
    #[must_use]
    pub fn parent_record_number(&self, record_number: usize) -> (r: Option<u64>)
        ensures
            r == if record_number < self@.len() {
                match self@[record_number as int] {
                    Some(e) => e.parent_record_number,
                    None => None,
                }
            } else {
                None
            },
    {
        match self.get(record_number) {
            Some(entry) => entry.parent_record_number,
            None => None,
        }
    }
}

/// The entries after a stretch of outcomes has been kept from record `first` on.
pub open spec fn with_outcomes(
    entries: Seq<Option<RawEntryView>>,
    first: int,
    outcomes: Seq<Option<RawEntryView>>,
) -> Seq<Option<RawEntryView>> {
    Seq::new(
        entries.len(),
        |i: int|
            if first <= i < first + outcomes.len() && outcomes[i - first] is Some {
                Some(kept_entry(outcomes[i - first]->0))
            } else {
                entries[i]
            },
    )
}

/// Keeps the entries of a stretch of records.
pub fn keep_entries(
    entries: &mut NtfsRawEntries,
    first: usize,
    found: Vec<Option<NtfsRawEntry>>,
)
    requires
        first + found@.len() <= old(entries)@.len(),
    ensures
        final(entries)@ == with_outcomes(old(entries)@, first as int, entry_models(found@)),
{
    let ghost before = entries@;
    let ghost models = entry_models(found@);
    let n: usize = found.len();
    let room: usize = entries.len();
    let mut i: usize = 0;
    assert(entries@ =~= with_outcomes(before, first as int, models.take(0)));
    for entry in it: found
        invariant
            it.seq() == found@,
            models == entry_models(found@),
            i == it.index(),
            n == found@.len(),
            first + n <= before.len(),
            entries@.len() == before.len(),
            before.len() == room,
            entries@ == with_outcomes(before, first as int, models.take(i as int)),
    {
        let ghost shown = entries@;
        let ghost outcome = entry_model(entry);
        assert(outcome == models[i as int]);
        match entry {
            Some(e) => entries.insert(first + i, e),
            None => {},
        }
        i += 1;
        proof {
            let more = models.take(i as int);
            assert(more =~= models.take(i - 1).push(outcome));
            assert(entries@ =~= with_outcomes(before, first as int, more));
        }
    }
    assert(models.take(n as int) =~= models);
}

/// Reads a stretch of records and keeps their entries.
pub fn process_mft_record_chunk(
    first_record_number: u64,
    records_read: usize,
    record_size: usize,
    bytes_per_sector: u32,
    buffer: &[u8],
    entries: &mut NtfsRawEntries,
) -> (chunk: NtfsChunkResult)
    requires
        records_read * record_size <= buffer@.len(),
        first_record_number + records_read <= old(entries)@.len(),
        first_record_number + records_read <= u64::MAX,
    ensures
        ({
            let found = outcomes(
                first_record_number,
                records_read as nat,
                record_size as int,
                bytes_per_sector as int,
                buffer@,
            );
            &&& chunk == tally(found)
            &&& final(entries)@ == with_outcomes(old(entries)@, first_record_number as int, found)
        }),
{
    let len: usize = entries.len();
    let (found, chunk) = process_mft_record_range(
        first_record_number,
        records_read,
        record_size,
        bytes_per_sector,
        buffer,
    );
    assert(entry_models(found@).len() == records_read);
    keep_entries(entries, first_record_number as usize, found);
    chunk
}

// ---------------------------------------------------------------------------------------------
// Progress
// ---------------------------------------------------------------------------------------------

/// Whether progress is told unconditionally: there is something new to tell, and it is asked for.
pub open spec fn tells(progress: NtfsScanProgress, progress_every: u64, last_records: u64) -> bool {
    progress_every != 0 && progress.records_read != last_records
}

/// Whether the number of records read is one at which progress is told.
pub open spec fn is_milestone(records_read: u64, progress_every: u64) -> bool {
    records_read == 1 || records_read % progress_every == 0
}

/// The progress to tell, at a milestone.
pub fn maybe_emit_ntfs_progress(
    progress: NtfsScanProgress,
    progress_every: u64,
    last_records: &mut u64,
) -> (r: Option<NtfsScanProgress>)
    ensures
        ({
            let tell = tells(progress, progress_every, *old(last_records)) && is_milestone(
                progress.records_read,
                progress_every,
            );
            &&& r == if tell {
                Some(progress)
            } else {
                None
            }
            &&& *final(last_records) == if tell {
                progress.records_read
            } else {
                *old(last_records)
            }
        }),
{
    if progress_every == 0 {
        return None;
    }
    if progress.records_read == 1 || progress.records_read % progress_every == 0 {
        emit_ntfs_progress(progress, progress_every, last_records)
    } else {
        None
    }
}

/// The progress to tell, if there is anything new.
pub fn emit_ntfs_progress(
    progress: NtfsScanProgress,
    progress_every: u64,
    last_records: &mut u64,
) -> (r: Option<NtfsScanProgress>)
    ensures
        ({
            let tell = tells(progress, progress_every, *old(last_records));
            &&& r == if tell {
                Some(progress)
            } else {
                None
            }
            &&& *final(last_records) == if tell {
                progress.records_read
            } else {
                *old(last_records)
            }
        }),
{
    if progress_every == 0 || progress.records_read == *last_records {
        return None;
    }
    *last_records = progress.records_read;
    Some(progress)
}

/// What the answer to told progress means for the scan.
pub fn heed_control(control: NtfsScanControl) -> (r: Result<(), NtfsScanError>)
    ensures
        r == match control {
            NtfsScanControl::Continue => Ok::<(), NtfsScanError>(()),
            NtfsScanControl::Cancel => Err(NtfsScanError::Cancelled),
        },
{
    match control {
        NtfsScanControl::Continue => Ok(()),
        NtfsScanControl::Cancel => Err(NtfsScanError::Cancelled),
    }
}

// ---------------------------------------------------------------------------------------------
// Places
// ---------------------------------------------------------------------------------------------

/// Where a cluster begins on the volume, if that is a place.
pub open spec fn cluster_offset(lcn: int, bytes_per_cluster: u32) -> Option<u64> {
    if lcn < 0 || lcn * bytes_per_cluster > u64::MAX {
        None
    } else {
        Some((lcn * bytes_per_cluster) as u64)
    }
}

/// Where a cluster begins on the volume.
pub fn lcn_to_offset(lcn: i64, bytes_per_cluster: u32) -> (r: Result<u64, NtfsScanError>)
    ensures
        r == match cluster_offset(lcn as int, bytes_per_cluster) {
            Some(offset) => Ok::<u64, NtfsScanError>(offset),
            None => Err(NtfsScanError::IntegerOverflow),
        },
{
    if lcn < 0 {
        return Err(NtfsScanError::IntegerOverflow);
    }
    match (lcn as u64).checked_mul(bytes_per_cluster as u64) {
        Some(offset) => Ok(offset),
        None => Err(NtfsScanError::IntegerOverflow),
    }
}

/// Whether `s` is a letter and a colon.
pub open spec fn is_drive(s: Seq<char>) -> bool {
    s.len() == 2 && is_ascii_letter_spec(s[0]) && s[1] == ':'
}

/// The path under which Windows opens a volume, if the text names one.
pub open spec fn device_path(volume: Seq<char>) -> Option<Seq<char>> {
    let trimmed = trim_separators(volume);
    if starts_with_spec(trimmed, seq!['\\', '\\', '.', '\\']) {
        Some(trimmed)
    } else if is_drive(trimmed) {
        Some(seq!['\\', '\\', '.', '\\', ascii_upper_spec(trimmed[0]), ':'])
    } else {
        None
    }
}

/// The path under which Windows opens a volume.
pub fn volume_device_path(volume: &str) -> (r: Result<String, NtfsScanError>)
    ensures
        match r {
            Ok(path) => device_path(volume@) == Some(path@),
            Err(NtfsScanError::InvalidVolume(text)) => device_path(volume@) is None && text@
                == volume@,
            Err(_) => false,
        },
{
    let v = chars_of(volume);
    let end = end_without_separators(&v, v.len());
    assert(v@.take(v@.len() as int) =~= volume@);
    let trimmed = string_of(&v, 0, end);
    let chars = chars_of(&trimmed);
    assert(v@.subrange(0, end as int) =~= v@.take(end as int));
    let prefix: Vec<char> = vec!['\\', '\\', '.', '\\'];
    assert(prefix@ =~= seq!['\\', '\\', '.', '\\']);
    if matches_at(&chars, &prefix, 0) {
        return Ok(trimmed);
    }
    if chars.len() == 2 && is_ascii_letter(chars[0]) && chars[1] == ':' {
        let mut path = string_of(&prefix, 0, 4);
        path.push(ascii_upper(chars[0]));
        path.push(':');
        assert(path@ =~= seq![
            '\\',
            '\\',
            '.',
            '\\',
            ascii_upper_spec(chars@[0]),
            ':',
        ]);
        return Ok(path);
    }
    Err(NtfsScanError::InvalidVolume(volume.to_owned()))
}

/// The name under which the root of a volume is shown.
pub open spec fn root_name(volume: Seq<char>) -> Seq<char> {
    let trimmed = trim_separators(volume);
    if trimmed.len() == 2 && trimmed[0] <= '\u{7f}' && trimmed[1] == ':' {
        trimmed.push('\\')
    } else if trimmed.len() == 0 {
        volume
    } else {
        trimmed
    }
}

/// The name under which the root of a volume is shown.
pub fn root_display_name(volume: &str) -> (r: String)
    ensures
        r@ == root_name(volume@),
{
    let v = chars_of(volume);
    let end = end_without_separators(&v, v.len());
    assert(v@.take(v@.len() as int) =~= volume@);
    let mut trimmed = string_of(&v, 0, end);
    assert(v@.subrange(0, end as int) =~= v@.take(end as int));
    if end == 2 && v[0] <= '\u{7f}' && v[1] == ':' {
        assert(trimmed@[0] == v@[0] && trimmed@[1] == v@[1]);
        trimmed.push('\\');
        return trimmed;
    }
    if end == 0 {
        return volume.to_owned();
    }
    assert(trimmed@[0] == v@[0] && (end > 1 ==> trimmed@[1] == v@[1]));
    trimmed
}

/// The text as UTF-16 with a zero at its end.
pub fn to_wide(value: &str) -> (r: Vec<u16>)
    ensures
        r@ == utf16_units(value@).push(0),
{
    let mut units = encode_utf16(value);
    units.push(0);
    units
}

// ---------------------------------------------------------------------------------------------
// Laws of entries
// ---------------------------------------------------------------------------------------------

/// A record tells of an entry exactly where the lowest bit of its flags is set, it extends no other
/// record, it has a name, and its number is not below 16, except for the root (5) and the directory
/// of extensions (11).
pub proof fn a_used_record_with_a_name_is_an_entry(record_number: u64, record: ScannedView)
    ensures
        raw_entry(record_number, record) is Some <==> {
            &&& record.header.flags % 2 == 1
            &&& record.header.base_file_record == 0
            &&& record.file_name is Some
            &&& record_number >= 16 || record_number == 5 || record_number == 11
        },
{
    let flags = record.header.flags;
    assert((flags & 1 != 0) == (flags % 2 == 1)) by (bit_vector);
}

/// An entry is a directory exactly where bit 1 of the record's flags is set, and a file otherwise.
pub proof fn the_second_flag_makes_a_directory(record_number: u64, record: ScannedView)
    ensures
        raw_entry(record_number, record) matches Some(e) ==> {
            &&& e.kind == FileKind::Directory <==> record.header.flags / 2 % 2 == 1
            &&& e.kind == FileKind::File <==> record.header.flags / 2 % 2 == 0
        },
{
    let flags = record.header.flags;
    assert((flags & 2 != 0) == (flags / 2 % 2 == 1)) by (bit_vector);
    assert(flags / 2 % 2 == 0 || flags / 2 % 2 == 1) by (bit_vector);
}

/// An entry has the name of its record and hangs on the record that the name tells, unless that is the
/// record itself, and has as many links as the record.
pub proof fn an_entry_has_its_records_name(record_number: u64, record: ScannedView)
    ensures
        raw_entry(record_number, record) matches Some(e) ==> (record.file_name matches Some(n) && {
            &&& e.name == n.name
            &&& e.parent_record_number is None <==> n.parent_record_number == record_number
            &&& e.parent_record_number matches Some(p) ==> p == n.parent_record_number
            &&& e.hard_links == record.header.hard_link_count
        }),
{
}

/// A directory has no size of its own. A file is as large as its data, and takes as much room; where
/// the data tells nothing, what its name tells of it counts.
pub proof fn a_file_is_as_large_as_its_data(record_number: u64, record: ScannedView)
    ensures
        raw_entry(record_number, record) matches Some(e) ==> (record.file_name matches Some(n) && {
            &&& e.kind == FileKind::Directory ==> e.size == 0 && e.allocated == 0
            &&& e.kind == FileKind::File && record.data_size > 0 ==> e.size == record.data_size
            &&& e.kind == FileKind::File && record.data_size == 0 ==> e.size == n.data_size
            &&& e.kind == FileKind::File && record.allocated_size > 0 ==> e.allocated
                == record.allocated_size
            &&& e.kind == FileKind::File && record.allocated_size == 0 ==> e.allocated
                == n.allocated_size
        }),
{
}

/// An entry was changed when its standard information says, and else when its name says.
pub proof fn an_entry_was_changed_when_its_record_says(record_number: u64, record: ScannedView)
    ensures
        raw_entry(record_number, record) matches Some(e) ==> {
            &&& record.standard_modified_unix matches Some(t) ==> e.modified_unix == t
            &&& record.standard_modified_unix is None ==> (record.file_name matches Some(n)
                && e.modified_unix == n.modified_unix)
        },
{
}

/// One more record counts as one: as an entry and as a file or a directory where it tells of one, and
/// as skipped where it does not.
pub proof fn a_record_counts_once(before: Seq<Option<RawEntryView>>, one: Option<RawEntryView>)
    requires
        before.len() < u64::MAX,
    ensures
        tally(before.push(one)).records_read == tally(before).records_read + 1,
        one is None ==> {
            &&& tally(before.push(one)).skipped == tally(before).skipped + 1
            &&& tally(before.push(one)).entries == tally(before).entries
            &&& tally(before.push(one)).files == tally(before).files
            &&& tally(before.push(one)).directories == tally(before).directories
        },
        one matches Some(e) ==> {
            &&& tally(before.push(one)).skipped == tally(before).skipped
            &&& tally(before.push(one)).entries == tally(before).entries + 1
            &&& e.kind == FileKind::Directory ==> {
                &&& tally(before.push(one)).directories == tally(before).directories + 1
                &&& tally(before.push(one)).files == tally(before).files
            }
            &&& e.kind != FileKind::Directory ==> {
                &&& tally(before.push(one)).directories == tally(before).directories
                &&& tally(before.push(one)).files == tally(before).files + 1
            }
        },
        tally(Seq::<Option<RawEntryView>>::empty()) == (NtfsChunkResult {
            records_read: 0,
            entries: 0,
            files: 0,
            directories: 0,
            skipped: 0,
        }),
{
    let after = before.push(one);
    assert(after.drop_last() =~= before);
    assert(after.last() == one);
    lemma_counts(before);
    lemma_counts(after);
}

/// A scan that counts record by record arrives at what a whole stretch comes to.
pub proof fn progress_is_a_running_tally(before: Seq<Option<RawEntryView>>, one: Option<RawEntryView>)
    requires
        before.len() < u64::MAX,
    ensures
        ({
            let so_far = tally(before);
            let then = tally(before.push(one));
            progress_after(
                NtfsScanProgress {
                    records_read: so_far.records_read,
                    entries: so_far.entries,
                    files: so_far.files,
                    directories: so_far.directories,
                    skipped: so_far.skipped,
                },
                one,
            ) == (NtfsScanProgress {
                records_read: then.records_read,
                entries: then.entries,
                files: then.files,
                directories: then.directories,
                skipped: then.skipped,
            })
        }),
{
    a_record_counts_once(before, one);
}

/// A stretch of records gives one outcome for each, that of its own bytes under its own number, and
/// keeping them changes nothing but the entries of these records.
pub proof fn a_stretch_is_kept_record_by_record(
    entries: Seq<Option<RawEntryView>>,
    first: u64,
    n: nat,
    size: int,
    sector: int,
    buffer: Seq<u8>,
    i: int,
)
    requires
        0 <= i < entries.len(),
        first + n <= u64::MAX,
    ensures
        ({
            let kept = with_outcomes(
                entries,
                first as int,
                outcomes(first, n, size, sector, buffer),
            );
            &&& kept.len() == entries.len()
            &&& !(first <= i < first + n) ==> kept[i] == entries[i]
            &&& first <= i < first + n ==> {
                let at = (i - first) * size;
                match entry_of_bytes(i as u64, buffer.subrange(at, at + size), sector) {
                    None => kept[i] == entries[i],
                    Some(e) => kept[i] matches Some(k) && k.name == e.name && k.kind == e.kind && k.size
                        == e.size && k.allocated == e.allocated && k.modified_unix == e.modified_unix
                        && k.hard_links == e.hard_links && (e.parent_record_number != Some(u64::MAX)
                        ==> k.parent_record_number == e.parent_record_number),
                }
            }
        }),
{
}

/// Clusters lie one after the other: the next begins where this one, of so many bytes, ends.
pub proof fn clusters_follow_each_other(lcn: int, bytes_per_cluster: u32)
    requires
        0 <= lcn,
        (lcn + 1) * bytes_per_cluster <= u64::MAX,
    ensures
        cluster_offset(0, bytes_per_cluster) == Some(0u64),
        cluster_offset(lcn, bytes_per_cluster) matches Some(here) && cluster_offset(
            lcn + 1,
            bytes_per_cluster,
        ) matches Some(next) && next == here + bytes_per_cluster,
        cluster_offset(-1 - lcn, bytes_per_cluster) is None,
{
    assert(0 <= lcn * bytes_per_cluster && lcn * bytes_per_cluster + bytes_per_cluster == (lcn + 1)
        * bytes_per_cluster) by (nonlinear_arith)
        requires
            0 <= lcn,
    ;
    assert(0 * bytes_per_cluster == 0) by (nonlinear_arith);
}

/// A drive is opened under its capital letter whether it is named with a small one or a capital, and
/// with separators behind it or none.
pub proof fn a_drive_is_opened_by_its_letter(letter: char, separator: char)
    requires
        'a' <= letter <= 'z',
        is_separator_spec(separator),
    ensures
        ({
            let capital = (letter as u32 - 32) as char;
            let opened = Some(seq!['\\', '\\', '.', '\\', capital, ':']);
            &&& device_path(seq![letter, ':']) == opened
            &&& device_path(seq![capital, ':']) == opened
            &&& device_path(seq![letter, ':', separator]) == opened
            &&& device_path(seq![letter]) is None
            &&& device_path(opened->0) == opened
            &&& root_name(seq![letter, ':']) == seq![letter, ':', '\\']
            &&& root_name(seq![letter, ':', separator]) == seq![letter, ':', '\\']
        }),
{
    let capital = (letter as u32 - 32) as char;
    let separators = |c: char| is_separator_spec(c);
    let small = seq![letter, ':'];
    let large = seq![capital, ':'];
    let ended = seq![letter, ':', separator];
    let opened = seq!['\\', '\\', '.', '\\', capital, ':'];
    let prefix = seq!['\\', '\\', '.', '\\'];
    assert(small.last() == ':' && large.last() == ':' && opened.last() == ':');
    assert(trim_end_by(small, separators) == small);
    assert(trim_end_by(large, separators) == large);
    assert(trim_end_by(opened, separators) == opened);
    assert(trim_end_by(seq![letter], separators) == seq![letter]);
    assert(ended.drop_last() =~= small);
    assert(ended.last() == separator);
    assert(trim_end_by(ended, separators) == small);
    assert(opened.subrange(0, 4) =~= prefix);
    assert(small.push('\\') =~= seq![letter, ':', '\\']);
}

/// An entry is kept as it was found, but that a parent whose number is all ones is none.
pub proof fn an_entry_is_kept_as_it_was_found(entry: RawEntryView)
    ensures
        ({
            let kept = kept_entry(entry);
            &&& kept.name == entry.name
            &&& kept.kind == entry.kind
            &&& kept.size == entry.size
            &&& kept.allocated == entry.allocated
            &&& kept.modified_unix == entry.modified_unix
            &&& kept.hard_links == entry.hard_links
            &&& entry.parent_record_number matches Some(p) ==> (p != 0xffff_ffff_ffff_ffff
                ==> kept.parent_record_number == Some(p))
            &&& entry.parent_record_number is None ==> kept.parent_record_number is None
            &&& kept.parent_record_number != Some(0xffff_ffff_ffff_ffffu64)
        }),
{
}

/// The root of a drive is shown with one backslash behind its colon, however many separators are
/// written there; what names no drive is shown without those at its end.
pub proof fn a_root_is_shown_with_its_backslash(letter: char, name: Seq<char>, separators: Seq<char>)
    requires
        'A' <= letter <= 'Z' || 'a' <= letter <= 'z',
        all_separators(separators),
        name.len() > 2,
        !is_separator_spec(name.last()),
    ensures
        root_name(seq![letter, ':'] + separators) == seq![letter, ':', '\\'],
        root_name(name + separators) == name,
{
    lemma_separators_off(seq![letter, ':'], separators);
    lemma_separators_off(name, separators);
    assert(seq![letter, ':'].push('\\') =~= seq![letter, ':', '\\']);
}

/// Progress is told with the first record and then whenever as many more were read as were asked for,
/// but not twice of the same number of records, and never where none is asked for.
pub proof fn progress_is_told_at_regular_steps(progress: NtfsScanProgress, every: u64, k: nat)
    requires
        every > 0,
        k * every <= u64::MAX,
    ensures
        is_milestone((k * every) as u64, every),
        is_milestone(1, every),
        !tells(progress, every, progress.records_read),
        forall|last: u64| !#[trigger] tells(progress, 0, last),
        forall|last: u64| last != progress.records_read ==> #[trigger] tells(progress, every, last),
        every > 1 ==> forall|more: u64|
            0 < more < every && k * every + more <= u64::MAX && k * every + more != 1
                ==> !#[trigger] is_milestone((k * every + more) as u64, every),
{
    vstd::arithmetic::div_mod::lemma_mod_multiples_basic(k as int, every as int);
    assert forall|more: u64|
        0 < more < every && k * every + more <= u64::MAX && k * every + more != 1 implies !#[trigger] is_milestone(
        (k * every + more) as u64,
        every,
    ) by {
        vstd::arithmetic::div_mod::lemma_mod_multiples_vanish(k as int, more as int, every as int);
        vstd::arithmetic::div_mod::lemma_small_mod(more as nat, every as nat);
        assert(every * k == k * every) by (nonlinear_arith);
    }
}

} // verus!
