//! Which parts of a volume to read, one after the other, to see its whole master file table.
//!
//! The caller reads what [`MftReader::next_read`] asks for, hands the bytes to
//! [`MftReader::accept`], tells the progress that comes back, and goes on until there is nothing
//! more to read.

use vstd::prelude::*;

use crate::mft::{parse_file_record, read_record, DataRun};
use crate::scanner::{capped_sum, chunk_records, cluster_offset, emit_ntfs_progress, is_milestone,
    lcn_to_offset, maybe_emit_ntfs_progress, outcomes, process_mft_record_chunk,
    records_per_mft_chunk, tally, tells, with_outcomes, NtfsChunkResult, NtfsRawEntries,
    NtfsScanError, NtfsScanProgress, NtfsVolumeInfo, RawEntryView};

verus! {

/// What there is to read.
#[derive(Debug)]
pub struct MftReadPlan {
    pub bytes_per_sector: u32,
    pub bytes_per_cluster: u32,
    pub bytes_per_file_record: u32,
    pub runs: Vec<DataRun>,
    pub record_count: u64,
    pub progress_every: u64,
}

/// A part of the volume to read: whole records.
#[derive(Debug, Clone, Copy, PartialEq, Eq, Structural)]
pub struct MftRead {
    pub offset: u64,
    pub records: u64,
    pub bytes: usize,
}

/// Where the reading of the table stands: in which run, at which record of it, and at which record
/// of the table.
pub struct ReadPoint {
    pub run: int,
    pub run_record: int,
    pub record_number: int,
}

/// Where the first record of the table stands.
pub fn first_record_offset(info: &NtfsVolumeInfo) -> (r: Result<u64, NtfsScanError>)
    ensures
        r == match cluster_offset(info.mft_start_lcn as int, info.bytes_per_cluster) {
            Some(offset) => Ok::<u64, NtfsScanError>(offset),
            None => Err(NtfsScanError::IntegerOverflow),
        },
{
    lcn_to_offset(info.mft_start_lcn, info.bytes_per_cluster)
}

/// What there is to read, from the table's own record. Where that record has runs, records have to
/// have a size.
pub fn plan_mft_read(info: &NtfsVolumeInfo, record0: &[u8], progress_every: u64) -> (r: Result<
    MftReadPlan,
    NtfsScanError,
>)
    requires
        (read_record(record0@, info.bytes_per_sector as int) matches Ok(record)
            && record.data_runs.len() > 0) ==> info.bytes_per_file_record > 0,
    ensures
        match read_record(record0@, info.bytes_per_sector as int) {
            Err(e) => r == Err::<MftReadPlan, _>(NtfsScanError::Parse(e)),
            Ok(record) => if record.data_runs.len() == 0 {
                r == Err::<MftReadPlan, _>(NtfsScanError::MissingMftDataRuns)
            } else {
                r matches Ok(plan) && {
                    &&& plan.bytes_per_sector == info.bytes_per_sector
                    &&& plan.bytes_per_cluster == info.bytes_per_cluster
                    &&& plan.bytes_per_file_record == info.bytes_per_file_record
                    &&& plan.runs@ == record.data_runs
                    &&& plan.record_count == record.data_size / (info.bytes_per_file_record as u64)
                    &&& plan.record_count * info.bytes_per_file_record <= record.data_size
                    &&& record.data_size < (plan.record_count + 1) * info.bytes_per_file_record
                    &&& plan.progress_every == progress_every
                }
            },
        },
{
    match parse_file_record(record0, info.bytes_per_sector) {
        Err(e) => Err(NtfsScanError::Parse(e)),
        Ok(record) => {
            if record.data_runs.len() == 0 {
                return Err(NtfsScanError::MissingMftDataRuns);
            }
            proof {
                let size = info.bytes_per_file_record as int;
                let all = record.data_size as int;
                assert((all / size) * size <= all < (all / size + 1) * size) by (nonlinear_arith)
                    requires
                        size > 0,
                        all >= 0,
                ;
            }
            Ok(
                MftReadPlan {
                    bytes_per_sector: info.bytes_per_sector,
                    bytes_per_cluster: info.bytes_per_cluster,
                    bytes_per_file_record: info.bytes_per_file_record,
                    record_count: record.data_size / (info.bytes_per_file_record as u64),
                    runs: record.data_runs,
                    progress_every,
                },
            )
        },
    }
}

impl MftReadPlan {
    /// How many bytes a run of this many clusters takes.
    pub open spec fn run_bytes(&self, clusters: u64) -> int {
        clusters * self.bytes_per_cluster
    }

    /// How many records a run of this many clusters holds, counting no more bytes than fit.
    pub open spec fn run_records(&self, clusters: u64) -> int {
        (if self.run_bytes(clusters) > u64::MAX {
            u64::MAX as int
        } else {
            self.run_bytes(clusters)
        }) / self.bytes_per_file_record as int
    }

    /// How many records the next read takes: as many as are read at once, as are left of the run,
    /// and as are left of the table.
    pub open spec fn read_records(&self, in_run: int, at: ReadPoint) -> int {
        let whole = chunk_records(self.bytes_per_file_record as int);
        let left_of_run = in_run - at.run_record;
        let left_of_table = self.record_count - at.record_number;
        let less = if whole < left_of_run {
            whole
        } else {
            left_of_run
        };
        if less < left_of_table {
            less
        } else {
            left_of_table
        }
    }

    /// The next read from `at` on, and where it stands; sparse runs are counted and passed over.
    pub open spec fn next(&self, at: ReadPoint) -> (ReadPoint, Result<Option<MftRead>, NtfsScanError>)
        decreases self.runs@.len() - at.run,
    {
        if at.run < 0 || at.run >= self.runs@.len() {
            (at, Ok(None))
        } else {
            let run = self.runs@[at.run];
            let in_run = self.run_records(run.clusters);
            match run.lcn {
                None => self.next(
                    ReadPoint {
                        run: at.run + 1,
                        run_record: 0,
                        record_number: capped_sum(at.record_number as u64, in_run as u64) as int,
                    },
                ),
                Some(lcn) => match cluster_offset(lcn as int, self.bytes_per_cluster) {
                    None => (at, Err(NtfsScanError::IntegerOverflow)),
                    Some(run_offset) => if self.run_bytes(run.clusters) > u64::MAX {
                        (at, Err(NtfsScanError::IntegerOverflow))
                    } else if at.run_record >= in_run {
                        self.next(
                            ReadPoint {
                                run: at.run + 1,
                                run_record: 0,
                                record_number: at.record_number,
                            },
                        )
                    } else if at.record_number >= self.record_count {
                        (at, Ok(None))
                    } else {
                        let offset = run_offset + at.run_record * self.bytes_per_file_record;
                        let records = self.read_records(in_run, at);
                        if offset > u64::MAX {
                            (at, Err(NtfsScanError::IntegerOverflow))
                        } else {
                            (
                                at,
                                Ok(
                                    Some(
                                        MftRead {
                                            offset: offset as u64,
                                            records: records as u64,
                                            bytes: (records * self.bytes_per_file_record) as usize,
                                        },
                                    ),
                                ),
                            )
                        }
                    },
                },
            }
        }
    }
}

/// The reading of a table.
#[derive(Debug)]
pub struct MftReader {
    plan: MftReadPlan,
    run: usize,
    run_record: u64,
    record_number: u64,
    pending: u64,
    progress: NtfsScanProgress,
    last_records: u64,
    entries: NtfsRawEntries,
}

impl MftReader {
    /// What there is to read.
    pub closed spec fn plan(&self) -> MftReadPlan {
        self.plan
    }

    /// Where the reading stands.
    pub closed spec fn point(&self) -> ReadPoint {
        ReadPoint {
            run: self.run as int,
            run_record: self.run_record as int,
            record_number: self.record_number as int,
        }
    }

    /// How many records were asked for last.
    pub closed spec fn pending(&self) -> u64 {
        self.pending
    }

    /// What was counted so far.
    pub closed spec fn progress(&self) -> NtfsScanProgress {
        self.progress
    }

    /// How many records had been read when progress was last told.
    pub closed spec fn last_records(&self) -> u64 {
        self.last_records
    }

    /// The entries found so far.
    pub closed spec fn entries(&self) -> Seq<Option<RawEntryView>> {
        self.entries@
    }

    /// Records have a size, there is room for all of them, and the records asked for last are
    /// records of the run and of the table.
    pub closed spec fn wf(&self) -> bool {
        &&& self.plan.bytes_per_file_record > 0
        &&& self.plan.record_count <= usize::MAX
        &&& self.entries@.len() == self.plan.record_count
        &&& self.run <= self.plan.runs@.len()
        &&& self.pending > 0 ==> self.record_number + self.pending <= self.plan.record_count
        &&& self.run_record + self.pending <= u64::MAX
        &&& self.pending * self.plan.bytes_per_file_record <= u32::MAX
    }

    /// Starts reading a table, if its records can be counted on this machine.
    pub fn new(plan: MftReadPlan) -> (r: Result<MftReader, NtfsScanError>)
        requires
            plan.bytes_per_file_record > 0,
        ensures
            plan.record_count > usize::MAX ==> r == Err::<MftReader, _>(NtfsScanError::IntegerOverflow),
            plan.record_count <= usize::MAX ==> (r matches Ok(reader) && {
                &&& reader.wf()
                &&& reader.plan() == plan
                &&& reader.point() == (ReadPoint { run: 0, run_record: 0, record_number: 0 })
                &&& reader.pending() == 0
                &&& reader.progress() == (NtfsScanProgress {
                    records_read: 0,
                    entries: 0,
                    files: 0,
                    directories: 0,
                    skipped: 0,
                })
                &&& reader.last_records() == 0
                &&& reader.entries() == Seq::new(
                    plan.record_count as nat,
                    |i: int| None::<RawEntryView>,
                )
            }),
    {
        if plan.record_count > usize::MAX as u64 {
            return Err(NtfsScanError::IntegerOverflow);
        }
        let entries = NtfsRawEntries::with_len(plan.record_count as usize);
        Ok(
            MftReader {
                plan,
                run: 0,
                run_record: 0,
                record_number: 0,
                pending: 0,
                progress: NtfsScanProgress::default(),
                last_records: 0,
                entries,
            },
        )
    }

    /// What to read next: nothing where the runs or the records are used up.
    pub fn next_read(&mut self) -> (r: Result<Option<MftRead>, NtfsScanError>)
        requires
            old(self).wf(),
        ensures
            final(self).wf(),
            final(self).plan() == old(self).plan(),
            final(self).progress() == old(self).progress(),
            final(self).last_records() == old(self).last_records(),
            final(self).entries() == old(self).entries(),
            (final(self).point(), r) == old(self).plan().next(old(self).point()),
            final(self).pending() == match r {
                Ok(Some(read)) => read.records,
                _ => 0,
            },
    {
        let ghost start = self.point();
        let ghost expected = self.plan.next(start);
        self.pending = 0;
        while self.run < self.plan.runs.len()
            invariant
                self.wf(),
                self.pending == 0,
                self.plan == old(self).plan,
                self.progress == old(self).progress,
                self.last_records == old(self).last_records,
                self.entries == old(self).entries,
                expected == self.plan.next(self.point()),
                expected == old(self).plan().next(old(self).point()),
            decreases self.plan.runs@.len() - self.run,
        {
            let run = self.plan.runs[self.run];
            let record_bytes: u64 = self.plan.bytes_per_file_record as u64;
            let cluster_bytes: u64 = self.plan.bytes_per_cluster as u64;
            match run.lcn {
                None => {
                    let bytes: u64 = match run.clusters.checked_mul(cluster_bytes) {
                        Some(bytes) => bytes,
                        None => u64::MAX,
                    };
                    self.record_number = self.record_number.saturating_add(bytes / record_bytes);
                    self.run = self.run + 1;
                    self.run_record = 0;
                },
                Some(lcn) => {
                    let run_offset: u64 = match lcn_to_offset(lcn, self.plan.bytes_per_cluster) {
                        Ok(offset) => offset,
                        Err(e) => {
                            return Err(e);
                        },
                    };
                    let bytes: u64 = match run.clusters.checked_mul(cluster_bytes) {
                        Some(bytes) => bytes,
                        None => {
                            return Err(NtfsScanError::IntegerOverflow);
                        },
                    };
                    let in_run: u64 = bytes / record_bytes;
                    if self.run_record >= in_run {
                        self.run = self.run + 1;
                        self.run_record = 0;
                    } else if self.record_number >= self.plan.record_count {
                        return Ok(None);
                    } else {
                        let whole: u64 = records_per_mft_chunk(
                            self.plan.bytes_per_file_record as usize,
                        ) as u64;
                        let left_of_run: u64 = in_run - self.run_record;
                        let left_of_table: u64 = self.plan.record_count - self.record_number;
                        let less: u64 = if whole < left_of_run {
                            whole
                        } else {
                            left_of_run
                        };
                        let records: u64 = if less < left_of_table {
                            less
                        } else {
                            left_of_table
                        };
                        proof {
                            lemma_run_fits(
                                self.run_record as int,
                                in_run as int,
                                record_bytes as int,
                                bytes as int,
                            );
                            lemma_chunk_fits(records as int, record_bytes as int);
                        }
                        let skip: u64 = self.run_record * record_bytes;
                        let offset: u64 = match run_offset.checked_add(skip) {
                            Some(offset) => offset,
                            None => {
                                return Err(NtfsScanError::IntegerOverflow);
                            },
                        };
                        self.pending = records;
                        return Ok(
                            Some(
                                MftRead {
                                    offset,
                                    records,
                                    bytes: (records * record_bytes) as usize,
                                },
                            ),
                        );
                    }
                },
            }
        }
        Ok(None)
    }

    /// Takes the bytes of the records that were asked for last, of which there may be fewer: whether
    /// the reading goes on, and the progress to tell.
    pub fn accept(&mut self, buffer: &[u8], bytes_read: usize) -> (r: (bool, Option<NtfsScanProgress>))
        requires
            old(self).wf(),
            bytes_read <= buffer@.len(),
            bytes_read <= old(self).pending() * old(self).plan().bytes_per_file_record,
        ensures
            final(self).wf(),
            final(self).plan() == old(self).plan(),
            ({
                let size = old(self).plan().bytes_per_file_record as int;
                let records = bytes_read as int / size;
                let found = outcomes(
                    old(self).point().record_number as u64,
                    records as nat,
                    size,
                    old(self).plan().bytes_per_sector as int,
                    buffer@,
                );
                if records == 0 {
                    &&& r == (false, None::<NtfsScanProgress>)
                    &&& final(self).point() == old(self).point()
                    &&& final(self).progress() == old(self).progress()
                    &&& final(self).last_records() == old(self).last_records()
                    &&& final(self).entries() == old(self).entries()
                } else {
                    let progress = progress_with(old(self).progress(), tally(found));
                    let every = old(self).plan().progress_every;
                    let tell = tells(progress, every, old(self).last_records()) && is_milestone(
                        progress.records_read,
                        every,
                    );
                    &&& r == (
                        true,
                        if tell {
                            Some(progress)
                        } else {
                            None
                        },
                    )
                    &&& final(self).point() == (ReadPoint {
                        run: old(self).point().run,
                        run_record: old(self).point().run_record + records,
                        record_number: old(self).point().record_number + records,
                    })
                    &&& final(self).progress() == progress
                    &&& final(self).last_records() == if tell {
                        progress.records_read
                    } else {
                        old(self).last_records()
                    }
                    &&& final(self).entries() == with_outcomes(
                        old(self).entries(),
                        old(self).point().record_number,
                        found,
                    )
                }
            }),
    {
        let size: usize = self.plan.bytes_per_file_record as usize;
        let records: usize = bytes_read / size;
        proof {
            lemma_whole_records(bytes_read as int, size as int, self.pending as int);
        }
        if records == 0 {
            self.pending = 0;
            return (false, None);
        }
        let chunk = process_mft_record_chunk(
            self.record_number,
            records,
            size,
            self.plan.bytes_per_sector,
            buffer,
            &mut self.entries,
        );
        self.progress = add_chunk(self.progress, chunk);
        let tell = maybe_emit_ntfs_progress(
            self.progress,
            self.plan.progress_every,
            &mut self.last_records,
        );
        self.record_number = self.record_number + records as u64;
        self.run_record = self.run_record + records as u64;
        self.pending = 0;
        (true, tell)
    }

    /// Ends the reading: the entries, and the progress to tell if there is anything new.
    pub fn finish(self) -> (r: (NtfsRawEntries, Option<NtfsScanProgress>))
        requires
            self.wf(),
        ensures
            r.0@ == self.entries(),
            r.1 == if tells(self.progress(), self.plan().progress_every, self.last_records()) {
                Some(self.progress())
            } else {
                None
            },
    {
        let mut last: u64 = self.last_records;
        let tell = emit_ntfs_progress(self.progress, self.plan.progress_every, &mut last);
        (self.entries, tell)
    }
}

/// The progress after a stretch of records.
pub open spec fn progress_with(progress: NtfsScanProgress, chunk: NtfsChunkResult) -> NtfsScanProgress {
    NtfsScanProgress {
        records_read: capped_sum(progress.records_read, chunk.records_read),
        entries: capped_sum(progress.entries, chunk.entries),
        files: capped_sum(progress.files, chunk.files),
        directories: capped_sum(progress.directories, chunk.directories),
        skipped: capped_sum(progress.skipped, chunk.skipped),
    }
}

fn add_chunk(progress: NtfsScanProgress, chunk: NtfsChunkResult) -> (r: NtfsScanProgress)
    ensures
        r == progress_with(progress, chunk),
{
    NtfsScanProgress {
        records_read: progress.records_read.saturating_add(chunk.records_read),
        entries: progress.entries.saturating_add(chunk.entries),
        files: progress.files.saturating_add(chunk.files),
        directories: progress.directories.saturating_add(chunk.directories),
        skipped: progress.skipped.saturating_add(chunk.skipped),
    }
}

proof fn lemma_run_fits(at: int, in_run: int, size: int, bytes: int)
    by (nonlinear_arith)
    requires
        0 <= at < in_run,
        size > 0,
        bytes >= 0,
        in_run == bytes / size,
    ensures
        0 <= at * size,
        at * size + size <= bytes,
{
}

proof fn lemma_chunk_fits(records: int, size: int)
    by (nonlinear_arith)
    requires
        0 <= records <= chunk_records(size),
        0 < size <= u32::MAX,
    ensures
        0 <= records * size <= u32::MAX,
{
}

proof fn lemma_whole_records(bytes: int, size: int, pending: int)
    by (nonlinear_arith)
    requires
        size > 0,
        0 <= bytes <= pending * size,
        pending >= 0,
    ensures
        0 <= bytes / size <= pending,
        (bytes / size) * size <= bytes,
{
}

} // verus!
