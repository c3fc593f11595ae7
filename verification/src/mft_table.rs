//! What a master file table holds, and that reading it part by part finds all of that.

use vstd::prelude::*;

use crate::mft_reader::{MftReadPlan, ReadPoint};
use crate::scanner::{capped_sum, chunk_records, cluster_offset, entry_of_bytes, kept_entry, outcomes,
    record_bytes, with_outcomes, RawEntryView};

verus! {

impl MftReadPlan {
    /// The number of the record with which a run starts.
    pub open spec fn run_start(&self, run: int) -> int
        decreases run,
    {
        if run <= 0 {
            0
        } else {
            self.run_start(run - 1) + self.run_records(self.runs@[run - 1].clusters)
        }
    }

    /// Where record `n` of the table stands on the volume, looked for from run `run` on: nowhere
    /// where its run is sparse, or where no run holds it.
    pub open spec fn place(&self, n: int, run: int) -> Option<int>
        decreases self.runs@.len() - run,
    {
        if run < 0 || run >= self.runs@.len() {
            None
        } else if n < self.run_start(run + 1) {
            match self.runs@[run].lcn {
                None => None,
                Some(lcn) => Some(
                    lcn * self.bytes_per_cluster + (n - self.run_start(run))
                        * self.bytes_per_file_record,
                ),
            }
        } else {
            self.place(n, run + 1)
        }
    }

    /// The entry of record `n` on a volume with these bytes.
    pub open spec fn entry_on(&self, volume: Seq<u8>, n: int) -> Option<RawEntryView> {
        match self.place(n, 0) {
            None => None,
            Some(offset) => match entry_of_bytes(
                n as u64,
                volume.subrange(offset, offset + self.bytes_per_file_record),
                self.bytes_per_sector as int,
            ) {
                None => None,
                Some(entry) => Some(kept_entry(entry)),
            },
        }
    }

    /// The entries of the table on a volume with these bytes, record by record.
    pub open spec fn table_on(&self, volume: Seq<u8>) -> Seq<Option<RawEntryView>> {
        Seq::new(self.record_count as nat, |n: int| self.entry_on(volume, n))
    }

    /// Whether the volume is large enough for every record of the table.
    pub open spec fn fits_on(&self, volume: Seq<u8>) -> bool {
        forall|n: int|
            0 <= n < self.record_count ==> (#[trigger] self.place(n, 0) matches Some(offset)
                ==> offset + self.bytes_per_file_record <= volume.len())
    }

    /// Where the reading stands once so many records were read from `at` on.
    pub open spec fn after(&self, at: ReadPoint, records: int) -> ReadPoint {
        ReadPoint {
            run: at.run,
            run_record: at.run_record + records,
            record_number: at.record_number + records,
        }
    }

    /// The entries once a volume with these bytes has been read from `at` on to the end, every read
    /// in full; nothing where a read cannot be asked for.
    pub open spec fn read_on(
        &self,
        volume: Seq<u8>,
        at: ReadPoint,
        entries: Seq<Option<RawEntryView>>,
    ) -> Option<Seq<Option<RawEntryView>>>
        decreases self.record_count - at.record_number,
    {
        match self.next(at) {
            (_, Err(_)) => None,
            (_, Ok(None)) => Some(entries),
            (here, Ok(Some(read))) => {
                let then = self.after(here, read.records as int);
                if at.record_number < then.record_number <= self.record_count {
                    let buffer = volume.subrange(read.offset as int, read.offset + read.bytes);
                    let found = outcomes(
                        here.record_number as u64,
                        read.records as nat,
                        self.bytes_per_file_record as int,
                        self.bytes_per_sector as int,
                        buffer,
                    );
                    self.read_on(volume, then, with_outcomes(entries, here.record_number, found))
                } else {
                    None
                }
            },
        }
    }

    /// Whether the record at which the reading stands is the one that the runs put there, counting
    /// no further than a number can.
    spec fn is_in_step(&self, at: ReadPoint) -> bool {
        let number = self.run_start(at.run) + at.run_record;
        &&& 0 <= at.run <= self.runs@.len()
        &&& 0 <= at.run_record
        &&& at.run_record > 0 ==> {
            &&& at.run < self.runs@.len()
            &&& self.runs@[at.run].lcn is Some
            &&& at.run_record <= self.run_records(self.runs@[at.run].clusters)
        }
        &&& at.record_number == if number > u64::MAX {
            u64::MAX as int
        } else {
            number
        }
    }

    /// Whether a run lies beyond what can be numbered on a volume.
    pub open spec fn is_misplaced(&self, run: int) -> bool {
        self.runs@[run].lcn matches Some(lcn) && {
            ||| lcn < 0
            ||| lcn * self.bytes_per_cluster + self.run_bytes(self.runs@[run].clusters) > u64::MAX
        }
    }
}

/// None of the records from `a` to before `b` stands on the volume.
spec fn are_nowhere(plan: MftReadPlan, a: int, b: int) -> bool {
    forall|n: int| a <= n < b ==> (#[trigger] plan.place(n, 0)) is None
}

proof fn lemma_run_records(plan: MftReadPlan, clusters: u64)
    requires
        plan.bytes_per_file_record > 0,
    ensures
        0 <= plan.run_records(clusters) <= u64::MAX,
        plan.run_bytes(clusters) <= u64::MAX ==> plan.run_records(clusters)
            * plan.bytes_per_file_record <= plan.run_bytes(clusters),
{
    let size = plan.bytes_per_file_record as int;
    let bytes = if plan.run_bytes(clusters) > u64::MAX {
        u64::MAX as int
    } else {
        plan.run_bytes(clusters)
    };
    assert(bytes >= 0) by (nonlinear_arith)
        requires
            bytes == u64::MAX || bytes == clusters * plan.bytes_per_cluster,
    ;
    assert(0 <= bytes / size <= bytes && (bytes / size) * size <= bytes) by (nonlinear_arith)
        requires
            bytes >= 0,
            size > 0,
    ;
}

/// Runs start one after the other.
proof fn lemma_starts(plan: MftReadPlan, a: int, b: int)
    requires
        plan.bytes_per_file_record > 0,
        0 <= a <= b <= plan.runs@.len(),
    ensures
        0 <= plan.run_start(a) <= plan.run_start(b),
    decreases b,
{
    if b > 0 {
        lemma_run_records(plan, plan.runs@[b - 1].clusters);
        if a < b {
            lemma_starts(plan, a, b - 1);
        } else {
            lemma_starts(plan, a - 1, b - 1);
        }
    }
}

/// A record of a run is found in it, from whichever run before it is looked for.
proof fn lemma_place(plan: MftReadPlan, n: int, run: int, from: int)
    requires
        plan.bytes_per_file_record > 0,
        0 <= from <= run < plan.runs@.len(),
        plan.run_start(run) <= n < plan.run_start(run + 1),
    ensures
        plan.place(n, from) == match plan.runs@[run].lcn {
            None => None::<int>,
            Some(lcn) => Some(
                lcn * plan.bytes_per_cluster + (n - plan.run_start(run))
                    * plan.bytes_per_file_record,
            ),
        },
    decreases run - from,
{
    if from < run {
        lemma_starts(plan, from + 1, run);
        lemma_place(plan, n, run, from + 1);
    }
}

/// A record behind the last run is nowhere.
proof fn lemma_beyond(plan: MftReadPlan, n: int, from: int)
    requires
        plan.bytes_per_file_record > 0,
        0 <= from <= plan.runs@.len(),
        plan.run_start(plan.runs@.len() as int) <= n,
    ensures
        plan.place(n, from) is None,
    decreases plan.runs@.len() - from,
{
    if from < plan.runs@.len() {
        lemma_starts(plan, from + 1, plan.runs@.len() as int);
        lemma_beyond(plan, n, from + 1);
    }
}

/// The next read takes records of one run from where they stand, and passes over none that stands
/// anywhere.
proof fn lemma_next(plan: MftReadPlan, at: ReadPoint)
    requires
        plan.bytes_per_file_record > 0,
        plan.is_in_step(at),
    ensures
        match plan.next(at) {
            (here, Ok(Some(read))) => {
                &&& plan.is_in_step(here)
                &&& here.run < plan.runs@.len()
                &&& at.record_number <= here.record_number
                &&& 0 < read.records
                &&& here.record_number + read.records <= plan.record_count
                &&& here.run_record + read.records <= plan.run_records(
                    plan.runs@[here.run].clusters,
                )
                &&& read.bytes == read.records * plan.bytes_per_file_record
                &&& plan.runs@[here.run].lcn matches Some(lcn) && 0 <= lcn && read.offset == lcn
                    * plan.bytes_per_cluster + here.run_record * plan.bytes_per_file_record
                &&& are_nowhere(plan, at.record_number, here.record_number)
            },
            (_, Ok(None)) => are_nowhere(plan, at.record_number, plan.record_count as int),
            (here, Err(_)) => 0 <= here.run < plan.runs@.len() && plan.is_misplaced(here.run),
        },
    decreases plan.runs@.len() - at.run,
{
    let len = plan.runs@.len() as int;
    if at.run >= len {
        assert forall|n: int| at.record_number <= n < plan.record_count implies (
        #[trigger] plan.place(n, 0)) is None by {
            lemma_beyond(plan, n, 0);
        }
    } else {
        let run = plan.runs@[at.run];
        let in_run = plan.run_records(run.clusters);
        let size = plan.bytes_per_file_record as int;
        lemma_run_records(plan, run.clusters);
        lemma_starts(plan, 0, at.run);
        assert(plan.run_start(at.run + 1) == plan.run_start(at.run) + in_run);
        assert(plan.run_bytes(run.clusters) >= 0) by (nonlinear_arith)
            requires
                plan.run_bytes(run.clusters) == run.clusters * plan.bytes_per_cluster,
        ;
        match run.lcn {
            None => {
                let then = ReadPoint {
                    run: at.run + 1,
                    run_record: 0,
                    record_number: capped_sum(at.record_number as u64, in_run as u64) as int,
                };
                lemma_next(plan, then);
                assert forall|n: int| at.record_number <= n < then.record_number implies (
                #[trigger] plan.place(n, 0)) is None by {
                    lemma_place(plan, n, at.run, 0);
                }
            },
            Some(lcn) => {
                assert(lcn >= 0 ==> lcn * plan.bytes_per_cluster >= 0) by (nonlinear_arith);
                if cluster_offset(lcn as int, plan.bytes_per_cluster) is None {
                    assert(plan.is_misplaced(at.run));
                } else if plan.run_bytes(run.clusters) > u64::MAX {
                    assert(plan.is_misplaced(at.run));
                } else if at.run_record >= in_run {
                    let then = ReadPoint {
                        run: at.run + 1,
                        run_record: 0,
                        record_number: at.record_number,
                    };
                    lemma_next(plan, then);
                } else if at.record_number < plan.record_count {
                    let records = plan.read_records(in_run, at);
                    assert(chunk_records(size) >= 1);
                    assert(0 <= records * size <= u32::MAX) by (nonlinear_arith)
                        requires
                            0 <= records <= chunk_records(size),
                            0 < size <= u32::MAX,
                    ;
                    assert(0 <= at.run_record * size <= in_run * size) by (nonlinear_arith)
                        requires
                            0 <= at.run_record <= in_run,
                            size > 0,
                    ;
                }
            },
        }
    }
}

/// A part of what was read is the same part of the volume.
proof fn lemma_same_bytes(volume: Seq<u8>, offset: int, records: int, size: int, k: int)
    requires
        0 <= k < records,
        0 < size,
        0 <= offset,
        offset + records * size <= volume.len(),
    ensures
        record_bytes(volume.subrange(offset, offset + records * size), size, k) == volume.subrange(
            offset + k * size,
            offset + k * size + size,
        ),
{
    assert(0 <= k * size && k * size + size <= records * size) by (nonlinear_arith)
        requires
            0 <= k < records,
            0 < size,
    ;
    assert(record_bytes(volume.subrange(offset, offset + records * size), size, k)
        =~= volume.subrange(offset + k * size, offset + k * size + size));
}

/// What a reading finds from a point on, where it has found all before it.
proof fn lemma_read_on(
    plan: MftReadPlan,
    volume: Seq<u8>,
    at: ReadPoint,
    entries: Seq<Option<RawEntryView>>,
)
    requires
        plan.bytes_per_file_record > 0,
        plan.fits_on(volume),
        plan.is_in_step(at),
        entries.len() == plan.record_count,
        forall|n: int|
            0 <= n < plan.record_count ==> #[trigger] entries[n] == if n < at.record_number {
                plan.entry_on(volume, n)
            } else {
                None
            },
    ensures
        match plan.read_on(volume, at, entries) {
            Some(found) => found == plan.table_on(volume),
            None => exists|run: int| 0 <= run < plan.runs@.len() && plan.is_misplaced(run),
        },
    decreases plan.record_count - at.record_number,
{
    lemma_next(plan, at);
    let size = plan.bytes_per_file_record as int;
    match plan.next(at) {
        (here, Err(_)) => {
            assert(plan.is_misplaced(here.run));
        },
        (_, Ok(None)) => {
            assert(entries =~= plan.table_on(volume)) by {
                assert forall|n: int| 0 <= n < plan.record_count implies entries[n]
                    == plan.table_on(volume)[n] by {
                    if n >= at.record_number {
                        assert(plan.place(n, 0) is None);
                    }
                }
            }
        },
        (here, Ok(Some(read))) => {
            let then = plan.after(here, read.records as int);
            let records = read.records as int;
            let offset = read.offset as int;
            let first = here.record_number;
            let buffer = volume.subrange(offset, offset + read.bytes);
            let found = outcomes(
                first as u64,
                read.records as nat,
                size,
                plan.bytes_per_sector as int,
                buffer,
            );
            let kept = with_outcomes(entries, first, found);
            lemma_starts(plan, 0, here.run);
            assert(plan.run_start(here.run + 1) == plan.run_start(here.run) + plan.run_records(
                plan.runs@[here.run].clusters,
            ));
            assert forall|k: int| 0 <= k < records implies #[trigger] plan.place(first + k, 0)
                == Some(offset + k * size) by {
                lemma_place(plan, first + k, here.run, 0);
                assert((here.run_record + k) * size == here.run_record * size + k * size)
                    by (nonlinear_arith);
            }
            assert(offset + records * size <= volume.len()) by {
                assert(plan.place(first + (records - 1), 0) == Some(
                    offset + (records - 1) * size,
                ));
                assert((records - 1) * size + size == records * size) by (nonlinear_arith);
            }
            assert forall|n: int| 0 <= n < plan.record_count implies #[trigger] kept[n] == if n
                < then.record_number {
                plan.entry_on(volume, n)
            } else {
                None
            } by {
                if first <= n < first + records {
                    let k = n - first;
                    assert(plan.place(first + k, 0) == Some(offset + k * size));
                    lemma_same_bytes(volume, offset, records, size, k);
                    assert(found[k] == entry_of_bytes(
                        n as u64,
                        record_bytes(buffer, size, k),
                        plan.bytes_per_sector as int,
                    ));
                } else if at.record_number <= n < first {
                    assert(plan.place(n, 0) is None);
                }
            }
            lemma_read_on(plan, volume, then, kept);
        },
    }
}

/// Reading a table from its first record on finds the entry of every record at the place where the
/// runs put it, and nothing else. It fails only where a run cannot lie on a volume.
pub proof fn a_whole_reading_finds_the_table(plan: MftReadPlan, volume: Seq<u8>)
    requires
        plan.bytes_per_file_record > 0,
        plan.fits_on(volume),
    ensures
        match plan.read_on(
            volume,
            ReadPoint { run: 0, run_record: 0, record_number: 0 },
            Seq::new(plan.record_count as nat, |i: int| None::<RawEntryView>),
        ) {
            Some(found) => found == plan.table_on(volume),
            None => exists|run: int|
                0 <= run < plan.runs@.len() && #[trigger] plan.is_misplaced(run),
        },
{
    lemma_read_on(
        plan,
        volume,
        ReadPoint { run: 0, run_record: 0, record_number: 0 },
        Seq::new(plan.record_count as nat, |i: int| None::<RawEntryView>),
    );
}

/// In a run that lies on the volume, each record stands right behind the one before it, and the first
/// where the run begins; the records of a run that lies nowhere stand nowhere.
pub proof fn records_of_a_run_follow_each_other(plan: MftReadPlan, run: int, n: int)
    requires
        plan.bytes_per_file_record > 0,
        0 <= run < plan.runs@.len(),
        plan.run_start(run) <= n < plan.run_start(run + 1),
    ensures
        plan.runs@[run].lcn is None ==> plan.place(n, 0) is None,
        plan.runs@[run].lcn matches Some(lcn) ==> {
            &&& plan.place(n, 0) is Some
            &&& n == plan.run_start(run) ==> plan.place(n, 0) == Some(lcn * plan.bytes_per_cluster)
            &&& n + 1 < plan.run_start(run + 1) ==> plan.place(n + 1, 0) == Some(
                plan.place(n, 0)->0 + plan.bytes_per_file_record,
            )
        },
{
    lemma_place(plan, n, run, 0);
    if n + 1 < plan.run_start(run + 1) {
        lemma_place(plan, n + 1, run, 0);
    }
    let size = plan.bytes_per_file_record as int;
    let k = n - plan.run_start(run);
    assert((k + 1) * size == k * size + size) by (nonlinear_arith);
    assert(0 * size == 0) by (nonlinear_arith);
}

/// The first run starts with the first record, and the runs follow each other without a gap, each
/// with as many records as its clusters hold.
pub proof fn runs_of_a_table_follow_each_other(plan: MftReadPlan, run: int)
    requires
        plan.bytes_per_file_record > 0,
        0 <= run < plan.runs@.len(),
        plan.runs@[run].clusters * plan.bytes_per_cluster <= u64::MAX,
    ensures
        plan.run_start(0) == 0,
        ({
            let records = plan.run_start(run + 1) - plan.run_start(run);
            let bytes = plan.runs@[run].clusters * plan.bytes_per_cluster;
            records * plan.bytes_per_file_record <= bytes < (records + 1) * plan.bytes_per_file_record
        }),
{
    let size = plan.bytes_per_file_record as int;
    let bytes = plan.runs@[run].clusters * plan.bytes_per_cluster;
    assert(bytes >= 0) by (nonlinear_arith)
        requires
            bytes == plan.runs@[run].clusters * plan.bytes_per_cluster,
    ;
    assert((bytes / size) * size <= bytes < (bytes / size + 1) * size) by (nonlinear_arith)
        requires
            size > 0,
            bytes >= 0,
    ;
}

} // verus!
