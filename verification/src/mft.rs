//! File records of the NTFS master file table.

use vstd::prelude::*;

use crate::le::{le, le_agrees, le_bytes, le_bytes_len, le_bytes_spell, le_is_bounded, le_range, read_u16,
    read_u32, read_u64};
use crate::text::{from_utf16_lossy, utf16_lossy, utf16_reads_back, utf16_units};

verus! {

pub const ATTR_STANDARD_INFORMATION: u32 = 0x10;

pub const ATTR_FILE_NAME: u32 = 0x30;

pub const ATTR_DATA: u32 = 0x80;

pub const ATTR_END: u32 = 0xFFFF_FFFF;

/// Why a file record could not be read.
#[derive(Debug, Clone, Copy, PartialEq, Eq, Structural)]
pub enum MftParseError {
    /// The record is shorter than its header.
    TooShort { actual: usize },
    /// The record does not begin with `FILE`.
    InvalidSignature,
    /// The update sequence does not fit the record.
    InvalidFixup,
    /// An attribute is shorter than its header or reaches beyond the record.
    InvalidAttributeLength { offset: usize, length: u32 },
    /// A runlist is cut off or malformed.
    InvalidRunlist,
    /// A file name attribute is cut off.
    InvalidFileName,
}

/// The head of a file record.
#[derive(Debug, Clone, Copy, PartialEq, Eq, Structural)]
pub struct FileRecordHeader {
    pub sequence_number: u16,
    pub hard_link_count: u16,
    pub first_attribute_offset: u16,
    pub flags: u16,
    pub bytes_in_use: u32,
    pub bytes_allocated: u32,
    pub base_file_record: u64,
    pub next_attribute_id: u16,
    pub record_number: u32,
}

/// A stretch of clusters: where it lies, unless it is sparse, and how long it is.
#[derive(Debug, Clone, Copy, PartialEq, Eq, Structural)]
pub struct DataRun {
    pub lcn: Option<i64>,
    pub clusters: u64,
}

/// A file name attribute.
#[derive(Debug, Clone, PartialEq, Eq)]
pub struct FileNameAttribute {
    pub parent_reference: u64,
    pub parent_record_number: u64,
    pub allocated_size: u64,
    pub data_size: u64,
    pub flags: u32,
    pub modified_unix: i64,
    pub namespace: u8,
    pub name: String,
}

/// A file record with its names and data.
#[derive(Debug, Clone, PartialEq, Eq)]
pub struct ParsedFileRecord {
    pub header: FileRecordHeader,
    pub file_names: Vec<FileNameAttribute>,
    pub data_size: u64,
    pub allocated_size: u64,
    pub data_runs: Vec<DataRun>,
}

// ---------------------------------------------------------------------------------------------
// The header
// ---------------------------------------------------------------------------------------------

/// How many bytes the header takes.
pub const RECORD_HEADER_BYTES: usize = 48;

/// The header that a record begins with.
pub open spec fn header_of(b: Seq<u8>) -> FileRecordHeader {
    FileRecordHeader {
        sequence_number: le(b, 16, 2) as u16,
        hard_link_count: le(b, 18, 2) as u16,
        first_attribute_offset: le(b, 20, 2) as u16,
        flags: le(b, 22, 2) as u16,
        bytes_in_use: le(b, 24, 4) as u32,
        bytes_allocated: le(b, 28, 4) as u32,
        base_file_record: le(b, 32, 8) as u64,
        next_attribute_id: le(b, 40, 2) as u16,
        record_number: le(b, 44, 4) as u32,
    }
}

/// Whether the record begins with `FILE`.
pub open spec fn has_signature(b: Seq<u8>) -> bool {
    b[0] == 0x46 && b[1] == 0x49 && b[2] == 0x4C && b[3] == 0x45
}

/// What reading the header of a record gives.
pub open spec fn read_header(b: Seq<u8>) -> Result<FileRecordHeader, MftParseError> {
    if b.len() < RECORD_HEADER_BYTES {
        Err(MftParseError::TooShort { actual: b.len() as usize })
    } else if !has_signature(b) {
        Err(MftParseError::InvalidSignature)
    } else {
        Ok(header_of(b))
    }
}

impl FileRecordHeader {
    /// Reads the header of a record.
    pub fn parse(record: &[u8]) -> (r: Result<Self, MftParseError>)
        ensures
            r == read_header(record@),
    {
        if record.len() < RECORD_HEADER_BYTES {
            return Err(MftParseError::TooShort { actual: record.len() });
        }
        if !(record[0] == 0x46 && record[1] == 0x49 && record[2] == 0x4C && record[3] == 0x45) {
            return Err(MftParseError::InvalidSignature);
        }
        Ok(
            Self {
                sequence_number: read_u16(record, 16),
                hard_link_count: read_u16(record, 18),
                first_attribute_offset: read_u16(record, 20),
                flags: read_u16(record, 22),
                bytes_in_use: read_u32(record, 24),
                bytes_allocated: read_u32(record, 28),
                base_file_record: read_u64(record, 32),
                next_attribute_id: read_u16(record, 40),
                record_number: read_u32(record, 44),
            },
        )
    }

    /// Whether the record is a directory's.
    #[must_use]
    pub fn is_directory(self) -> (r: bool)
        ensures
            r == (self.flags & 2 != 0),
            r == ((self.flags / 2) % 2 == 1),
    {
        let flags = self.flags;
        assert((flags & 2 != 0) == ((flags / 2) % 2 == 1)) by (bit_vector);
        self.flags & 0x0002 != 0
    }

    /// Whether the record is in use.
    #[must_use]
    pub fn is_in_use(self) -> (r: bool)
        ensures
            r == (self.flags & 1 != 0),
            r == (self.flags % 2 == 1),
    {
        let flags = self.flags;
        assert((flags & 1 != 0) == (flags % 2 == 1)) by (bit_vector);
        self.flags & 0x0001 != 0
    }
}

// ---------------------------------------------------------------------------------------------
// Fixups
// ---------------------------------------------------------------------------------------------

/// Where the update sequence array begins.
pub open spec fn usa_offset(b: Seq<u8>) -> int {
    le(b, 4, 2) as int
}

/// How many sectors the update sequence array covers.
pub open spec fn usa_sectors(b: Seq<u8>) -> int {
    le(b, 6, 2) - 1
}

/// Whether the update sequence array, and the sectors that it covers, lie in the record.
pub open spec fn usa_fits(b: Seq<u8>, sector: int) -> bool {
    &&& b.len() >= 8
    &&& sector >= 2
    &&& usa_sectors(b) >= 0
    &&& usa_offset(b) + 2 * (usa_sectors(b) + 1) <= b.len()
    &&& usa_sectors(b) * sector <= b.len()
}

/// Where the last two bytes of sector `k` stand, sectors counted from one.
pub open spec fn trailer(k: int, sector: int) -> int {
    k * sector - 2
}

/// The record with the trailers of its first `k` sectors restored, and whether each of them held
/// the update sequence number.
pub open spec fn restored(b: Seq<u8>, sector: int, k: int) -> (Seq<u8>, bool)
    decreases k,
{
    if k <= 0 {
        (b, true)
    } else {
        let (s, ok) = restored(b, sector, k - 1);
        let at = trailer(k, sector);
        let from = usa_offset(b) + 2 * k;
        if !ok || s[at] != b[usa_offset(b)] || s[at + 1] != b[usa_offset(b) + 1] {
            (s, false)
        } else {
            let t = s.update(at, s[from]);
            (t.update(at + 1, t[from + 1]), true)
        }
    }
}

proof fn lemma_trailer_fits(k: int, sectors: int, sector: int, len: int)
    by (nonlinear_arith)
    requires
        1 <= k <= sectors,
        sector >= 2,
        sectors * sector <= len,
    ensures
        0 <= trailer(k, sector),
        trailer(k, sector) + 2 <= len,
{
}

/// Puts the bytes that the update sequence array holds back at the end of each sector.
///
/// A sector that does not end in the update sequence number stops this; the sectors before it are
/// restored by then.
pub fn apply_fixups(record: &mut [u8], bytes_per_sector: usize) -> (r: Result<(), MftParseError>)
    ensures
        final(record)@.len() == old(record)@.len(),
        !usa_fits(old(record)@, bytes_per_sector as int) ==> r == Err::<(), _>(
            MftParseError::InvalidFixup,
        ) && final(record)@ == old(record)@,
        usa_fits(old(record)@, bytes_per_sector as int) ==> ({
            let (s, ok) = restored(
                old(record)@,
                bytes_per_sector as int,
                usa_sectors(old(record)@),
            );
            &&& r == if ok {
                Ok::<(), MftParseError>(())
            } else {
                Err(MftParseError::InvalidFixup)
            }
            &&& final(record)@ == s
        }),
{
    let ghost b = record@;
    let ghost sector = bytes_per_sector as int;
    if record.len() < 8 || bytes_per_sector < 2 {
        return Err(MftParseError::InvalidFixup);
    }
    let offset: usize = read_u16(record, 4) as usize;
    let count: usize = read_u16(record, 6) as usize;
    if count == 0 || offset + count * 2 > record.len() {
        return Err(MftParseError::InvalidFixup);
    }
    let sectors: usize = count - 1;
    match sectors.checked_mul(bytes_per_sector) {
        Some(covered) => {
            if covered > record.len() {
                return Err(MftParseError::InvalidFixup);
            }
        },
        None => {
            assert(record.len() == record@.len());
            return Err(MftParseError::InvalidFixup);
        },
    }
    let low: u8 = record[offset];
    let high: u8 = record[offset + 1];
    let mut done: usize = 0;
    while done < sectors
        invariant
            usa_fits(b, sector),
            sector == bytes_per_sector,
            sectors == usa_sectors(b),
            offset == usa_offset(b),
            low == b[offset as int],
            high == b[offset + 1],
            done <= sectors,
            record@.len() == b.len(),
            b == old(record)@,
            restored(b, sector, done as int) == (record@, true),
        decreases sectors - done,
    {
        let k: usize = done + 1;
        proof {
            lemma_trailer_fits(k as int, sectors as int, sector, b.len() as int);
            assert(record.len() == record@.len());
            lemma_stuck(b, sector, k as int, sectors as int);
        }
        let at: usize = k * bytes_per_sector - 2;
        if record[at] != low || record[at + 1] != high {
            return Err(MftParseError::InvalidFixup);
        }
        let from: usize = offset + k * 2;
        record[at] = record[from];
        record[at + 1] = record[from + 1];
        done += 1;
    }
    Ok(())
}

/// Once a sector has stopped the fixups, nothing more happens.
proof fn lemma_stuck(b: Seq<u8>, sector: int, k: int, n: int)
    requires
        k <= n,
    ensures
        !restored(b, sector, k).1 ==> restored(b, sector, n) == restored(b, sector, k),
    decreases n - k,
{
    if k < n {
        lemma_stuck(b, sector, k, n - 1);
    }
}

/// Whether `at` is one of the last two bytes of one of the first `n` sectors.
pub open spec fn in_trailer(at: int, sector: int, n: int) -> bool {
    exists|k: int| 1 <= k <= n && (at == #[trigger] trailer(k, sector) || at == trailer(k, sector) + 1)
}

/// Whether every sector ends in the update sequence number.
pub open spec fn trailers_match(b: Seq<u8>, sector: int) -> bool {
    forall|k: int|
        1 <= k <= usa_sectors(b) ==> b[#[trigger] trailer(k, sector)] == b[usa_offset(b)] && b[trailer(
            k,
            sector,
        ) + 1] == b[usa_offset(b) + 1]
}

/// Whether no byte of the update sequence array is the end of a sector.
pub open spec fn usa_is_apart(b: Seq<u8>, sector: int) -> bool {
    forall|at: int|
        usa_offset(b) <= at < usa_offset(b) + 2 * (usa_sectors(b) + 1) ==> !#[trigger] in_trailer(
            at,
            sector,
            usa_sectors(b),
        )
}

proof fn lemma_trailers_apart(j: int, k: int, sector: int)
    by (nonlinear_arith)
    requires
        j < k,
        sector >= 2,
    ensures
        trailer(j, sector) + 2 <= trailer(k, sector),
{
}

proof fn lemma_restored(b: Seq<u8>, sector: int, n: int)
    requires
        usa_fits(b, sector),
        usa_is_apart(b, sector),
        trailers_match(b, sector),
        0 <= n <= usa_sectors(b),
    ensures
        ({
            let (s, ok) = restored(b, sector, n);
            &&& ok
            &&& s.len() == b.len()
            &&& forall|k: int|
                1 <= k <= n ==> s[#[trigger] trailer(k, sector)] == b[usa_offset(b) + 2 * k] && s[trailer(
                    k,
                    sector,
                ) + 1] == b[usa_offset(b) + 2 * k + 1]
            &&& forall|at: int|
                0 <= at < b.len() && !in_trailer(at, sector, n) ==> #[trigger] s[at] == b[at]
        }),
    decreases n,
{
    if n > 0 {
        let m = n - 1;
        lemma_restored(b, sector, m);
        let (s, ok) = restored(b, sector, m);
        let (t, done) = restored(b, sector, n);
        let here = trailer(n, sector);
        let from = usa_offset(b) + 2 * n;
        let sectors = usa_sectors(b);
        lemma_trailer_fits(n, sectors, sector, b.len() as int);
        assert forall|at: int| here <= at <= here + 1 implies !#[trigger] in_trailer(at, sector, m) by {
            if in_trailer(at, sector, m) {
                let k = choose|k: int|
                    1 <= k <= n - 1 && (at == #[trigger] trailer(k, sector) || at == trailer(k, sector)
                        + 1);
                lemma_trailers_apart(k, n, sector);
            }
        }
        assert forall|at: int|
            usa_offset(b) <= at < usa_offset(b) + 2 * (sectors + 1) implies #[trigger] s[at] == b[at] && at != here
            && at != here + 1 by {
            assert(!in_trailer(at, sector, sectors));
            if in_trailer(at, sector, m) {
                let k = choose|k: int|
                    1 <= k <= n - 1 && (at == #[trigger] trailer(k, sector) || at == trailer(k, sector)
                        + 1);
                assert(1 <= k <= sectors && (at == trailer(k, sector) || at == trailer(k, sector) + 1));
            }
            assert(trailer(n, sector) == here);
        }
        assert(s[from] == b[from] && s[from + 1] == b[from + 1]);
        assert(trailer(n, sector) == here && b[here] == b[usa_offset(b)]);
        assert forall|k: int| 1 <= k <= n implies t[#[trigger] trailer(k, sector)] == b[usa_offset(b)
            + 2 * k] && t[trailer(k, sector) + 1] == b[usa_offset(b) + 2 * k + 1] by {
            if k < n {
                lemma_trailers_apart(k, n, sector);
                lemma_trailer_fits(k, sectors, sector, b.len() as int);
            }
        }
        assert forall|at: int| 0 <= at < b.len() && !in_trailer(at, sector, n) implies #[trigger] t[at]
            == b[at] by {
            if in_trailer(at, sector, m) {
                let k = choose|k: int|
                    1 <= k <= n - 1 && (at == #[trigger] trailer(k, sector) || at == trailer(k, sector)
                        + 1);
                assert(1 <= k <= n && (at == trailer(k, sector) || at == trailer(k, sector) + 1));
            }
            assert(at != trailer(n, sector) && at != trailer(n, sector) + 1);
        }
    }
}

/// Where every sector ends in the update sequence number and the array lies apart from the sector
/// ends, the fixups succeed, give each sector end the bytes that the array keeps for it, and change
/// nothing else.
pub proof fn fixups_restore_sector_ends(b: Seq<u8>, sector: int)
    requires
        usa_fits(b, sector),
        usa_is_apart(b, sector),
        trailers_match(b, sector),
    ensures
        ({
            let (s, ok) = restored(b, sector, usa_sectors(b));
            &&& ok
            &&& s.len() == b.len()
            &&& forall|k: int|
                1 <= k <= usa_sectors(b) ==> s[#[trigger] trailer(k, sector)] == b[usa_offset(b) + 2 * k]
                    && s[trailer(k, sector) + 1] == b[usa_offset(b) + 2 * k + 1]
            &&& forall|at: int|
                0 <= at < b.len() && !in_trailer(at, sector, usa_sectors(b)) ==> #[trigger] s[at] == b[at]
        }),
{
    lemma_restored(b, sector, usa_sectors(b));
}

// ---------------------------------------------------------------------------------------------
// Runlists
// ---------------------------------------------------------------------------------------------

/// The number that the `n` bytes from `offset` on spell in two's complement.
pub open spec fn signed_le(b: Seq<u8>, offset: int, n: nat) -> int {
    let u = le(b, offset, n);
    if 2 * u < le_range(n) {
        u as int
    } else {
        u - le_range(n)
    }
}

/// The sum, held within 64 bits.
pub open spec fn saturating_sum(a: int, b: int) -> int {
    if a + b > i64::MAX {
        i64::MAX as int
    } else if a + b < i64::MIN {
        i64::MIN as int
    } else {
        a + b
    }
}

/// The runs behind `found` that the bytes from `offset` on hold; `lcn` is where the last run that
/// is not sparse lies.
pub open spec fn read_runs(b: Seq<u8>, offset: int, lcn: int, found: Seq<DataRun>) -> Result<
    Seq<DataRun>,
    MftParseError,
>
    decreases b.len() - offset,
{
    if offset < 0 || offset >= b.len() {
        Err(MftParseError::InvalidRunlist)
    } else if b[offset] == 0 {
        Ok(found)
    } else {
        let length_size = (b[offset] % 16) as int;
        let offset_size = (b[offset] / 16) as int;
        let next = offset + 1 + length_size + offset_size;
        if length_size == 0 || length_size > 8 || offset_size > 8 || next > b.len() {
            Err(MftParseError::InvalidRunlist)
        } else {
            let clusters = le(b, offset + 1, length_size as nat) as u64;
            if offset_size == 0 {
                read_runs(b, next, lcn, found.push(DataRun { lcn: None, clusters }))
            } else {
                let moved = saturating_sum(
                    lcn,
                    signed_le(b, offset + 1 + length_size, offset_size as nat),
                );
                read_runs(b, next, moved, found.push(DataRun { lcn: Some(moved as i64), clusters }))
            }
        }
    }
}

proof fn lemma_le_range(n: nat)
    requires
        n <= 8,
    ensures
        le_range(n) <= 0x1_0000_0000_0000_0000,
        n == 8 ==> le_range(n) == 0x1_0000_0000_0000_0000,
        n >= 1 ==> le_range(n) % 256 == 0,
        n >= 1 ==> le_range(n) % 2 == 0,
{
    reveal_with_fuel(le_range, 9);
}

/// The number that `input` spells, the lowest byte first.
pub fn read_uint_le(input: &[u8]) -> (r: u64)
    requires
        input@.len() <= 8,
    ensures
        r == le(input@, 0, input@.len()),
{
    let ghost n = input@.len();
    let mut value: u64 = 0;
    let mut i: usize = input.len();
    while i > 0
        invariant
            n == input@.len(),
            n <= 8,
            i <= n,
            value == le(input@, i as int, (n - i) as nat),
        decreases i,
    {
        i -= 1;
        proof {
            le_is_bounded(input@, i as int, (n - i) as nat);
            lemma_le_range((n - i) as nat);
        }
        value = value * 256 + input[i] as u64;
    }
    value
}

/// The number that `input` spells in two's complement, the lowest byte first.
#[verifier::spinoff_prover]
pub fn read_int_le(input: &[u8]) -> (r: i64)
    requires
        1 <= input@.len() <= 8,
    ensures
        r == signed_le(input@, 0, input@.len()),
{
    let unsigned: i128 = read_uint_le(input) as i128;
    let mut range: i128 = 1;
    let mut i: usize = 0;
    proof {
        lemma_le_range(input@.len());
        le_is_bounded(input@, 0, input@.len());
    }
    while i < input.len()
        invariant
            i <= input@.len() <= 8,
            range == le_range(i as nat),
        decreases input@.len() - i,
    {
        proof {
            lemma_le_range(i as nat);
        }
        range = range * 256;
        i += 1;
    }
    let half: i128 = range / 2;
    assert(2 * half == range);
    assert(range <= 0x1_0000_0000_0000_0000);
    if unsigned < half {
        unsigned as i64
    } else {
        assert(unsigned < range);
        assert(-0x8000_0000_0000_0000 <= unsigned - range < 0);
        (unsigned - range) as i64
    }
}

/// Reads a runlist up to the zero byte that ends it.
pub fn parse_runlist(input: &[u8]) -> (r: Result<Vec<DataRun>, MftParseError>)
    ensures
        match r {
            Ok(runs) => read_runs(input@, 0, 0, Seq::empty()) == Ok::<_, MftParseError>(runs@),
            Err(e) => read_runs(input@, 0, 0, Seq::empty()) == Err::<Seq<DataRun>, _>(e),
        },
{
    let mut runs: Vec<DataRun> = Vec::new();
    let mut offset: usize = 0;
    let mut current: i64 = 0;
    while offset < input.len()
        invariant
            offset <= input@.len(),
            read_runs(input@, 0, 0, Seq::empty()) == read_runs(
                input@,
                offset as int,
                current as int,
                runs@,
            ),
        decreases input@.len() - offset,
    {
        assert(input.len() == input@.len());
        let header: u8 = input[offset];
        if header == 0 {
            return Ok(runs);
        }
        let length_size: usize = (header % 16) as usize;
        let offset_size: usize = (header / 16) as usize;
        if length_size == 0 || length_size > 8 || offset_size > 8 {
            return Err(MftParseError::InvalidRunlist);
        }
        if length_size + offset_size > input.len() - offset - 1 {
            return Err(MftParseError::InvalidRunlist);
        }
        let start: usize = offset + 1;
        let middle: usize = start + length_size;
        let next: usize = middle + offset_size;
        let length_bytes = vstd::slice::slice_subrange(input, start, middle);
        let clusters: u64 = read_uint_le(length_bytes);
        proof {
            assert(input@.subrange(start as int, middle as int) == length_bytes@.subrange(
                0,
                length_size as int,
            ));
            crate::le::le_agrees(input@, start as int, length_bytes@, 0, length_size as nat);
        }
        if offset_size == 0 {
            runs.push(DataRun { lcn: None, clusters });
        } else {
            let delta_bytes = vstd::slice::slice_subrange(input, middle, next);
            let delta: i64 = read_int_le(delta_bytes);
            proof {
                assert(input@.subrange(middle as int, next as int) == delta_bytes@.subrange(
                    0,
                    offset_size as int,
                ));
                crate::le::le_agrees(input@, middle as int, delta_bytes@, 0, offset_size as nat);
            }
            current = saturating_add(current, delta);
            runs.push(DataRun { lcn: Some(current), clusters });
        }
        offset = next;
    }
    Err(MftParseError::InvalidRunlist)
}

fn saturating_add(a: i64, b: i64) -> (r: i64)
    ensures
        r == saturating_sum(a as int, b as int),
{
    let sum: i128 = a as i128 + b as i128;
    if sum > i64::MAX as i128 {
        i64::MAX
    } else if sum < i64::MIN as i128 {
        i64::MIN
    } else {
        sum as i64
    }
}

// ---------------------------------------------------------------------------------------------
// Attributes
// ---------------------------------------------------------------------------------------------

/// An attribute of a record: its type, and which bytes of the record it takes.
#[derive(Debug, Clone, Copy, PartialEq, Eq, Structural)]
pub struct AttributeSpan {
    pub kind: u32,
    pub length: u32,
    pub non_resident: bool,
    pub start: usize,
}

/// The attributes behind `found` that the record holds from `offset` on, up to `end`.
pub open spec fn read_attributes(
    b: Seq<u8>,
    offset: int,
    end: int,
    found: Seq<AttributeSpan>,
) -> Result<Seq<AttributeSpan>, MftParseError>
    decreases end - offset,
{
    if offset + 8 > end {
        Ok(found)
    } else {
        let kind = le(b, offset, 4);
        let length = le(b, offset + 4, 4);
        if kind == ATTR_END {
            Ok(found)
        } else if length < 16 || offset + length > end {
            Err(
                MftParseError::InvalidAttributeLength {
                    offset: offset as usize,
                    length: length as u32,
                },
            )
        } else {
            read_attributes(
                b,
                offset + length,
                end,
                found.push(
                    AttributeSpan {
                        kind: kind as u32,
                        length: length as u32,
                        non_resident: b[offset + 8] != 0,
                        start: offset as usize,
                    },
                ),
            )
        }
    }
}

/// Where the attributes of a record end.
pub open spec fn attributes_end(b: Seq<u8>, header: FileRecordHeader) -> int {
    if header.bytes_in_use < b.len() {
        header.bytes_in_use as int
    } else {
        b.len() as int
    }
}

/// The attributes of a record.
pub open spec fn record_attributes(b: Seq<u8>, header: FileRecordHeader) -> Result<
    Seq<AttributeSpan>,
    MftParseError,
> {
    read_attributes(
        b,
        header.first_attribute_offset as int,
        attributes_end(b, header),
        Seq::empty(),
    )
}

/// Whether the attribute lies in a record of `len` bytes.
pub open spec fn span_fits(a: AttributeSpan, len: nat) -> bool {
    a.length >= 16 && a.start + a.length <= len
}

/// The attributes of a record, in order.
pub fn iter_attributes(record: &[u8], header: FileRecordHeader) -> (r: Result<
    Vec<AttributeSpan>,
    MftParseError,
>)
    ensures
        match r {
            Ok(found) => {
                &&& record_attributes(record@, header) == Ok::<_, MftParseError>(found@)
                &&& forall|i: int|
                    0 <= i < found@.len() ==> span_fits(#[trigger] found@[i], record@.len())
            },
            Err(e) => record_attributes(record@, header) == Err::<Seq<AttributeSpan>, _>(e),
        },
{
    let mut found: Vec<AttributeSpan> = Vec::new();
    let mut offset: usize = header.first_attribute_offset as usize;
    let end: usize = if (header.bytes_in_use as usize) < record.len() {
        header.bytes_in_use as usize
    } else {
        record.len()
    };
    while offset <= end && end - offset >= 8
        invariant
            end <= record@.len(),
            end == attributes_end(record@, header),
            offset <= end || offset == header.first_attribute_offset,
            record_attributes(record@, header) == read_attributes(
                record@,
                offset as int,
                end as int,
                found@,
            ),
            forall|i: int| 0 <= i < found@.len() ==> span_fits(#[trigger] found@[i], record@.len()),
        decreases record@.len() - offset,
    {
        let kind: u32 = read_u32(record, offset);
        if kind == ATTR_END {
            return Ok(found);
        }
        let length: u32 = read_u32(record, offset + 4);
        if length < 16 || length as usize > end - offset {
            return Err(MftParseError::InvalidAttributeLength { offset, length });
        }
        let non_resident = record[offset + 8] != 0;
        found.push(AttributeSpan { kind, length, non_resident, start: offset });
        offset += length as usize;
    }
    Ok(found)
}

/// The bytes of an attribute.
pub open spec fn span_bytes(b: Seq<u8>, a: AttributeSpan) -> Seq<u8> {
    b.subrange(a.start as int, a.start + a.length)
}

/// The value of an attribute that is kept in the record itself.
pub open spec fn resident_bytes(attribute: Seq<u8>) -> Result<Seq<u8>, MftParseError> {
    let length = le(attribute, 16, 4);
    let offset = le(attribute, 20, 2);
    if attribute.len() < 24 {
        Err(MftParseError::InvalidAttributeLength { offset: 0, length: attribute.len() as u32 })
    } else if offset + length > attribute.len() {
        Err(
            MftParseError::InvalidAttributeLength {
                offset: offset as usize,
                length: length as u32,
            },
        )
    } else {
        Ok(attribute.subrange(offset as int, (offset + length) as int))
    }
}

/// The value of an attribute that is kept in the record itself.
pub fn resident_value(attribute: &[u8]) -> (r: Result<&[u8], MftParseError>)
    ensures
        match r {
            Ok(value) => resident_bytes(attribute@) == Ok::<_, MftParseError>(value@),
            Err(e) => resident_bytes(attribute@) == Err::<Seq<u8>, _>(e),
        },
{
    if attribute.len() < 24 {
        return Err(
            MftParseError::InvalidAttributeLength { offset: 0, length: attribute.len() as u32 },
        );
    }
    let length: u32 = read_u32(attribute, 16);
    let offset: usize = read_u16(attribute, 20) as usize;
    if offset > attribute.len() || length as usize > attribute.len() - offset {
        return Err(MftParseError::InvalidAttributeLength { offset, length });
    }
    Ok(vstd::slice::slice_subrange(attribute, offset, offset + length as usize))
}

// ---------------------------------------------------------------------------------------------
// Times and names
// ---------------------------------------------------------------------------------------------

/// Seconds from the start of 1601 to the start of 1970.
pub const WINDOWS_TO_UNIX_SECONDS: i64 = 11_644_473_600;

/// The Unix time of a Windows file time, which counts units of 100 nanoseconds since 1601.
pub open spec fn unix_time(filetime: nat) -> int {
    filetime / 10_000_000 - WINDOWS_TO_UNIX_SECONDS
}

/// The Unix time of a Windows file time.
pub fn filetime_to_unix(filetime: u64) -> (r: i64)
    ensures
        r == unix_time(filetime as nat),
{
    let seconds: i64 = (filetime / 10_000_000) as i64;
    seconds - WINDOWS_TO_UNIX_SECONDS
}

/// A file name attribute, as the contracts speak of it.
pub struct FileNameView {
    pub parent_reference: u64,
    pub parent_record_number: u64,
    pub allocated_size: u64,
    pub data_size: u64,
    pub flags: u32,
    pub modified_unix: i64,
    pub namespace: u8,
    pub name: Seq<char>,
}

/// The record number in a file reference: its lower 48 bits.
pub open spec fn record_number_of(reference: u64) -> u64 {
    (reference % 0x1_0000_0000_0000) as u64
}

impl FileNameAttribute {
    /// The attribute as the contracts speak of it.
    pub open spec fn model(&self) -> FileNameView {
        FileNameView {
            parent_reference: self.parent_reference,
            parent_record_number: self.parent_record_number,
            allocated_size: self.allocated_size,
            data_size: self.data_size,
            flags: self.flags,
            modified_unix: self.modified_unix,
            namespace: self.namespace,
            name: self.name@,
        }
    }
}

/// The 16-bit units of a name of `n` units in the value of a file name attribute.
pub open spec fn name_units(value: Seq<u8>, n: nat) -> Seq<u16> {
    Seq::new(n, |i: int| le(value, 66 + 2 * i, 2) as u16)
}

/// The file name that an attribute holds.
pub open spec fn read_file_name(attribute: Seq<u8>) -> Result<FileNameView, MftParseError> {
    if attribute.len() < 66 {
        Err(MftParseError::InvalidFileName)
    } else {
        match resident_bytes(attribute) {
            Err(e) => Err(e),
            Ok(value) => if value.len() < 66 || 66 + 2 * value[64] > value.len() {
                Err(MftParseError::InvalidFileName)
            } else {
                Ok(
                    FileNameView {
                        parent_reference: le(value, 0, 8) as u64,
                        parent_record_number: record_number_of(le(value, 0, 8) as u64),
                        allocated_size: le(value, 40, 8) as u64,
                        data_size: le(value, 48, 8) as u64,
                        flags: le(value, 56, 4) as u32,
                        modified_unix: unix_time(le(value, 16, 8)) as i64,
                        namespace: value[65],
                        name: utf16_lossy(name_units(value, value[64] as nat)),
                    },
                )
            },
        }
    }
}

/// Reads a file name attribute.
pub fn parse_file_name(input: &[u8]) -> (r: Result<FileNameAttribute, MftParseError>)
    ensures
        match r {
            Ok(name) => read_file_name(input@) == Ok::<_, MftParseError>(name.model()),
            Err(e) => read_file_name(input@) == Err::<FileNameView, _>(e),
        },
{
    if input.len() < 66 {
        return Err(MftParseError::InvalidFileName);
    }
    let value = match resident_value(input) {
        Ok(value) => value,
        Err(e) => {
            return Err(e);
        },
    };
    if value.len() < 66 {
        return Err(MftParseError::InvalidFileName);
    }
    let units_count: usize = value[64] as usize;
    if 66 + 2 * units_count > value.len() {
        return Err(MftParseError::InvalidFileName);
    }
    let mut units: Vec<u16> = Vec::new();
    let mut i: usize = 0;
    while i < units_count
        invariant
            units_count <= 255,
            66 + 2 * units_count <= value@.len(),
            i <= units_count,
            units@ == name_units(value@, i as nat),
        decreases units_count - i,
    {
        units.push(read_u16(value, 66 + 2 * i));
        i += 1;
        assert(units@ =~= name_units(value@, i as nat));
    }
    let parent_reference: u64 = read_u64(value, 0);
    Ok(
        FileNameAttribute {
            parent_reference,
            parent_record_number: parent_reference % 0x1_0000_0000_0000,
            allocated_size: read_u64(value, 40),
            data_size: read_u64(value, 48),
            flags: read_u32(value, 56),
            modified_unix: filetime_to_unix(read_u64(value, 16)),
            namespace: value[65],
            name: from_utf16_lossy(&units),
        },
    )
}

// ---------------------------------------------------------------------------------------------
// Records
// ---------------------------------------------------------------------------------------------

/// A file record, as the contracts speak of it.
pub struct RecordView {
    pub header: FileRecordHeader,
    pub file_names: Seq<FileNameView>,
    pub data_size: u64,
    pub allocated_size: u64,
    pub data_runs: Seq<DataRun>,
}

impl ParsedFileRecord {
    /// The record as the contracts speak of it.
    pub open spec fn model(&self) -> RecordView {
        RecordView {
            header: self.header,
            file_names: Seq::new(
                self.file_names@.len(),
                |i: int| self.file_names@[i].model(),
            ),
            data_size: self.data_size,
            allocated_size: self.allocated_size,
            data_runs: self.data_runs@,
        }
    }
}

/// The sizes that a data attribute tells: the data's and the allocated.
pub open spec fn data_sizes(attribute: Seq<u8>, non_resident: bool) -> Result<(u64, u64), MftParseError> {
    if attribute.len() < if non_resident {
        64nat
    } else {
        24
    } {
        Err(MftParseError::InvalidAttributeLength { offset: 0, length: attribute.len() as u32 })
    } else if non_resident {
        if le(attribute, 32, 2) >= attribute.len() {
            Err(MftParseError::InvalidRunlist)
        } else {
            Ok((le(attribute, 48, 8) as u64, le(attribute, 40, 8) as u64))
        }
    } else {
        Ok((le(attribute, 16, 4) as u64, le(attribute, 16, 4) as u64))
    }
}

/// The record after one more of its attributes.
pub open spec fn with_attribute(b: Seq<u8>, a: AttributeSpan, record: RecordView) -> Result<
    RecordView,
    MftParseError,
> {
    let bytes = span_bytes(b, a);
    if a.kind == ATTR_FILE_NAME && !a.non_resident {
        match read_file_name(bytes) {
            Ok(name) => Ok(RecordView { file_names: record.file_names.push(name), ..record }),
            Err(e) => Err(e),
        }
    } else if a.kind == ATTR_DATA {
        match data_sizes(bytes, a.non_resident) {
            Err(e) => Err(e),
            Ok((data_size, allocated_size)) => if a.non_resident {
                match read_runs(bytes.skip(le(bytes, 32, 2) as int), 0, 0, Seq::empty()) {
                    Ok(data_runs) => Ok(
                        RecordView { data_size, allocated_size, data_runs, ..record },
                    ),
                    Err(e) => Err(e),
                }
            } else {
                Ok(RecordView { data_size, allocated_size, ..record })
            },
        }
    } else {
        Ok(record)
    }
}

/// The record after the attributes from number `k` on.
pub open spec fn with_attributes(
    b: Seq<u8>,
    attributes: Seq<AttributeSpan>,
    k: int,
    record: RecordView,
) -> Result<RecordView, MftParseError>
    decreases attributes.len() - k,
{
    if k < 0 || k >= attributes.len() {
        Ok(record)
    } else {
        match with_attribute(b, attributes[k], record) {
            Ok(next) => with_attributes(b, attributes, k + 1, next),
            Err(e) => Err(e),
        }
    }
}

/// The record that restored bytes hold.
pub open spec fn read_restored_record(b: Seq<u8>) -> Result<RecordView, MftParseError> {
    match read_header(b) {
        Err(e) => Err(e),
        Ok(header) => match record_attributes(b, header) {
            Err(e) => Err(e),
            Ok(attributes) => with_attributes(
                b,
                attributes,
                0,
                RecordView {
                    header,
                    file_names: Seq::empty(),
                    data_size: 0,
                    allocated_size: 0,
                    data_runs: Seq::empty(),
                },
            ),
        },
    }
}

/// The bytes of a record after the fixups, where they succeed.
pub open spec fn fixed_up(b: Seq<u8>, sector: int) -> Option<Seq<u8>> {
    if usa_fits(b, sector) && restored(b, sector, usa_sectors(b)).1 {
        Some(restored(b, sector, usa_sectors(b)).0)
    } else {
        None
    }
}

/// What reading a record gives.
pub open spec fn read_record(b: Seq<u8>, sector: int) -> Result<RecordView, MftParseError> {
    match fixed_up(b, sector) {
        Some(fixed) => read_restored_record(fixed),
        None => Err(MftParseError::InvalidFixup),
    }
}

/// Takes the sizes and the runs from a data attribute.
fn parse_data_attribute(bytes: &[u8], a: AttributeSpan, parsed: &mut ParsedFileRecord) -> (r: Result<
    (),
    MftParseError,
>)
    requires
        bytes@.len() == a.length,
        a.kind == ATTR_DATA,
    ensures
        ({
            let expected = match data_sizes(bytes@, a.non_resident) {
                Err(e) => Err(e),
                Ok((data_size, allocated_size)) => if a.non_resident {
                    match read_runs(bytes@.skip(le(bytes@, 32, 2) as int), 0, 0, Seq::empty()) {
                        Ok(data_runs) => Ok(
                            RecordView {
                                data_size,
                                allocated_size,
                                data_runs,
                                ..old(parsed).model()
                            },
                        ),
                        Err(e) => Err(e),
                    }
                } else {
                    Ok(RecordView { data_size, allocated_size, ..old(parsed).model() })
                },
            };
            match r {
                Ok(()) => expected == Ok::<_, MftParseError>(final(parsed).model()),
                Err(e) => expected == Err::<RecordView, _>(e),
            }
        }),
{
    if a.non_resident {
        if bytes.len() < 64 {
            return Err(MftParseError::InvalidAttributeLength { offset: 0, length: a.length });
        }
        let runlist: usize = read_u16(bytes, 32) as usize;
        if runlist >= bytes.len() {
            return Err(MftParseError::InvalidRunlist);
        }
        parsed.allocated_size = read_u64(bytes, 40);
        parsed.data_size = read_u64(bytes, 48);
        assert(bytes@.subrange(runlist as int, bytes@.len() as int) =~= bytes@.skip(runlist as int));
        match parse_runlist(vstd::slice::slice_subrange(bytes, runlist, bytes.len())) {
            Ok(runs) => {
                parsed.data_runs = runs;
                Ok(())
            },
            Err(e) => Err(e),
        }
    } else {
        if bytes.len() < 24 {
            return Err(MftParseError::InvalidAttributeLength { offset: 0, length: a.length });
        }
        parsed.data_size = read_u32(bytes, 16) as u64;
        parsed.allocated_size = parsed.data_size;
        Ok(())
    }
}

/// Reads a file record with all its names and its data.
pub fn parse_file_record(record: &[u8], bytes_per_sector: u32) -> (r: Result<
    ParsedFileRecord,
    MftParseError,
>)
    ensures
        match r {
            Ok(parsed) => read_record(record@, bytes_per_sector as int) == Ok::<_, MftParseError>(
                parsed.model(),
            ),
            Err(e) => read_record(record@, bytes_per_sector as int) == Err::<RecordView, _>(e),
        },
{
    let mut fixed: Vec<u8> = vstd::slice::slice_to_vec(record);
    match apply_fixups(fixed.as_mut_slice(), bytes_per_sector as usize) {
        Ok(()) => {},
        Err(e) => {
            return Err(e);
        },
    }
    let ghost b = fixed@;
    let header = match FileRecordHeader::parse(&fixed) {
        Ok(header) => header,
        Err(e) => {
            return Err(e);
        },
    };
    let attributes = match iter_attributes(&fixed, header) {
        Ok(attributes) => attributes,
        Err(e) => {
            return Err(e);
        },
    };
    let mut parsed = ParsedFileRecord {
        header,
        file_names: Vec::new(),
        data_size: 0,
        allocated_size: 0,
        data_runs: Vec::new(),
    };
    assert(parsed.model().file_names =~= Seq::<FileNameView>::empty());
    let mut k: usize = 0;
    while k < attributes.len()
        invariant
            b == fixed@,
            k <= attributes@.len(),
            forall|i: int| 0 <= i < attributes@.len() ==> span_fits(#[trigger] attributes@[i], b.len()),
            read_record(record@, bytes_per_sector as int) == with_attributes(
                b,
                attributes@,
                k as int,
                parsed.model(),
            ),
        decreases attributes@.len() - k,
    {
        let a = attributes[k];
        assert(span_fits(a, b.len()));
        assert(a.start + a.length <= fixed.len());
        let bytes = vstd::slice::slice_subrange(&fixed, a.start, a.start + a.length as usize);
        assert(bytes@ == span_bytes(b, a));
        let ghost before = parsed.model();
        if a.kind == ATTR_FILE_NAME && !a.non_resident {
            match parse_file_name(bytes) {
                Ok(name) => {
                    parsed.file_names.push(name);
                    assert(parsed.model().file_names =~= before.file_names.push(name.model()));
                },
                Err(e) => {
                    return Err(e);
                },
            }
        } else if a.kind == ATTR_DATA {
            match parse_data_attribute(bytes, a, &mut parsed) {
                Ok(()) => {},
                Err(e) => {
                    return Err(e);
                },
            }
        }
        k += 1;
    }
    Ok(parsed)
}

// ---------------------------------------------------------------------------------------------
// Laws of runlists
// ---------------------------------------------------------------------------------------------

/// With how many bytes a run is written: those of its length, and those of the way to its place.
pub struct RunWidths {
    pub length: nat,
    pub offset: nat,
}

/// `m` in two's complement, as a number of `n` bytes.
pub open spec fn complement(m: int, n: nat) -> nat {
    if m >= 0 {
        m as nat
    } else {
        (m + le_range(n)) as nat
    }
}

/// Whether a run can be written with these widths, behind one that lies at `before`: a run that lies
/// nowhere has no bytes for its place.
pub open spec fn fits_widths(run: DataRun, before: int, widths: RunWidths) -> bool {
    &&& 1 <= widths.length <= 8
    &&& run.clusters < le_range(widths.length)
    &&& match run.lcn {
        None => widths.offset == 0,
        Some(lcn) => {
            &&& 1 <= widths.offset <= 8
            &&& -(le_range(widths.offset) as int) <= 2 * (lcn - before) < le_range(widths.offset)
        },
    }
}

/// The bytes of a run behind one that lies at `before`: both widths, the clusters, and the way to its
/// place.
pub open spec fn run_bytes(run: DataRun, before: int, widths: RunWidths) -> Seq<u8> {
    seq![(widths.length + 16 * widths.offset) as u8] + le_bytes(run.clusters as nat, widths.length)
        + match run.lcn {
        None => Seq::empty(),
        Some(lcn) => le_bytes(complement(lcn - before, widths.offset), widths.offset),
    }
}

/// Where the next run is counted from behind this one.
pub open spec fn place_behind(run: DataRun, before: int) -> int {
    match run.lcn {
        None => before,
        Some(lcn) => lcn as int,
    }
}

/// Whether runs can be written with these widths, the first behind one that lies at `before`.
pub open spec fn all_fit_widths(runs: Seq<DataRun>, before: int, widths: Seq<RunWidths>) -> bool
    decreases runs.len(),
{
    &&& widths.len() == runs.len()
    &&& runs.len() > 0 ==> fits_widths(runs[0], before, widths[0]) && all_fit_widths(
        runs.drop_first(),
        place_behind(runs[0], before),
        widths.drop_first(),
    )
}

/// The bytes of a list of runs, the first behind one that lies at `before`, and the zero behind them.
pub open spec fn runlist_bytes(runs: Seq<DataRun>, before: int, widths: Seq<RunWidths>) -> Seq<u8>
    decreases runs.len(),
{
    if runs.len() == 0 {
        seq![0u8]
    } else {
        run_bytes(runs[0], before, widths[0]) + runlist_bytes(
            runs.drop_first(),
            place_behind(runs[0], before),
            widths.drop_first(),
        )
    }
}

proof fn lemma_spelled_at(b: Seq<u8>, at: int, x: nat, n: nat)
    requires
        x < le_range(n),
        0 <= at,
        at + n <= b.len(),
        b.subrange(at, at + n) == le_bytes(x, n),
    ensures
        le(b, at, n) == x,
{
    le_bytes_spell(x, n);
    let own = le_bytes(x, n);
    assert(own.subrange(0, n as int) =~= own);
    le_agrees(b, at, own, 0, n);
}

proof fn lemma_runs_read_back(
    head: Seq<u8>,
    runs: Seq<DataRun>,
    before: int,
    widths: Seq<RunWidths>,
    rest: Seq<u8>,
    found: Seq<DataRun>,
)
    requires
        i64::MIN <= before <= i64::MAX,
        all_fit_widths(runs, before, widths),
    ensures
        read_runs(head + runlist_bytes(runs, before, widths) + rest, head.len() as int, before, found)
            == Ok::<_, MftParseError>(found + runs),
    decreases runs.len(),
{
    let own = runlist_bytes(runs, before, widths);
    let b = head + own + rest;
    let at = head.len() as int;
    assert(b[at] == own[0]);
    if runs.len() == 0 {
        assert(found + runs =~= found);
    } else {
        let run = runs[0];
        let w = widths[0];
        let first = run_bytes(run, before, w);
        let after = place_behind(run, before);
        let more = runlist_bytes(runs.drop_first(), after, widths.drop_first());
        let spelled = le_bytes(run.clusters as nat, w.length);
        le_bytes_len(run.clusters as nat, w.length);
        assert(own[0] == first[0]);
        let header = b[at];
        assert(header == w.length + 16 * w.offset);
        assert(header % 16 == w.length && header / 16 == w.offset) by (nonlinear_arith)
            requires
                header == w.length + 16 * w.offset,
                w.length < 16,
        ;
        assert(b.subrange(at + 1, at + 1 + w.length) =~= spelled);
        lemma_spelled_at(b, at + 1, run.clusters as nat, w.length);
        let next = at + 1 + w.length + w.offset;
        let longer = head + first;
        match run.lcn {
            None => {},
            Some(lcn) => {
                let x = complement(lcn - before, w.offset);
                le_bytes_len(x, w.offset);
                assert(b.subrange(at + 1 + w.length, next) =~= le_bytes(x, w.offset));
                lemma_spelled_at(b, at + 1 + w.length, x, w.offset);
                assert(signed_le(b, at + 1 + w.length, w.offset) == lcn - before);
            },
        }
        assert(longer.len() == next);
        assert(b =~= longer + more + rest);
        lemma_runs_read_back(
            longer,
            runs.drop_first(),
            after,
            widths.drop_first(),
            rest,
            found.push(run),
        );
        assert(found.push(run) + runs.drop_first() =~= found + runs);
    }
}

/// A list of runs that is written down, each with any widths that hold it, reads back as it was,
/// whatever stands behind it.
pub proof fn runs_read_back(runs: Seq<DataRun>, widths: Seq<RunWidths>, rest: Seq<u8>)
    requires
        all_fit_widths(runs, 0, widths),
    ensures
        read_runs(runlist_bytes(runs, 0, widths) + rest, 0, 0, Seq::empty()) == Ok::<_, MftParseError>(
            runs,
        ),
{
    let none = Seq::<u8>::empty();
    let own = runlist_bytes(runs, 0, widths);
    lemma_runs_read_back(none, runs, 0, widths, rest, Seq::empty());
    assert(none + own + rest =~= own + rest);
    assert(Seq::<DataRun>::empty() + runs =~= runs);
}

// ---------------------------------------------------------------------------------------------
// Laws of records
// ---------------------------------------------------------------------------------------------

/// Whether the `n` bytes of `b` from `at` on are those of the number `x`, the lowest first.
pub open spec fn holds_number(b: Seq<u8>, at: int, x: nat, n: nat) -> bool {
    &&& 0 <= at
    &&& at + n <= b.len()
    &&& x < le_range(n)
    &&& b.subrange(at, at + n) == le_bytes(x, n)
}

proof fn lemma_holds(b: Seq<u8>, at: int, x: nat, n: nat)
    requires
        holds_number(b, at, x, n),
    ensures
        le(b, at, n) == x,
{
    lemma_spelled_at(b, at, x, n);
}

/// A header whose numbers stand in a record at their places, lowest byte first, reads back: the
/// sequence number at byte 16, then the links, the place of the first attribute, the flags, the bytes
/// in use, the bytes allocated, the base record, the next attribute's number, and at 44 its own.
pub proof fn a_header_reads_back(b: Seq<u8>, header: FileRecordHeader)
    requires
        b.len() >= 48,
        b.take(4) == seq![0x46u8, 0x49, 0x4c, 0x45],
        holds_number(b, 16, header.sequence_number as nat, 2),
        holds_number(b, 18, header.hard_link_count as nat, 2),
        holds_number(b, 20, header.first_attribute_offset as nat, 2),
        holds_number(b, 22, header.flags as nat, 2),
        holds_number(b, 24, header.bytes_in_use as nat, 4),
        holds_number(b, 28, header.bytes_allocated as nat, 4),
        holds_number(b, 32, header.base_file_record as nat, 8),
        holds_number(b, 40, header.next_attribute_id as nat, 2),
        holds_number(b, 44, header.record_number as nat, 4),
    ensures
        read_header(b) == Ok::<_, MftParseError>(header),
{
    lemma_holds(b, 16, header.sequence_number as nat, 2);
    lemma_holds(b, 18, header.hard_link_count as nat, 2);
    lemma_holds(b, 20, header.first_attribute_offset as nat, 2);
    lemma_holds(b, 22, header.flags as nat, 2);
    lemma_holds(b, 24, header.bytes_in_use as nat, 4);
    lemma_holds(b, 28, header.bytes_allocated as nat, 4);
    lemma_holds(b, 32, header.base_file_record as nat, 8);
    lemma_holds(b, 40, header.next_attribute_id as nat, 2);
    lemma_holds(b, 44, header.record_number as nat, 4);
    let head = b.take(4);
    assert(b[0] == head[0] && b[1] == head[1] && b[2] == head[2] && b[3] == head[3]);
}

/// A record that is too short for a header, or does not begin with `FILE`, has none.
pub proof fn only_file_records_have_a_header(b: Seq<u8>)
    ensures
        read_header(b) is Ok <==> b.len() >= 48 && b.take(4) == seq![0x46u8, 0x49, 0x4c, 0x45],
{
    if b.len() >= 48 {
        let head = b.take(4);
        assert(b[0] == head[0] && b[1] == head[1] && b[2] == head[2] && b[3] == head[3]);
        if has_signature(b) {
            assert(head =~= seq![0x46u8, 0x49, 0x4c, 0x45]);
        }
    }
}

/// Ten million units more are one second more, and times are rounded down to seconds.
pub proof fn file_times_count_seconds(filetime: nat, part: nat)
    requires
        part < 10_000_000,
    ensures
        unix_time(filetime + 10_000_000) == unix_time(filetime) + 1,
        filetime % 10_000_000 == 0 ==> unix_time(filetime + part) == unix_time(filetime),
        // 1601 to 1970: 369 years, 89 of them with a leap day.
        filetime == (369 * 365 + 89) * 86_400 * 10_000_000 ==> unix_time(filetime) == 0,
{
}

/// The value of an attribute that is kept in the record: from the place that stands at byte 20 on, as
/// many bytes as stand at byte 16.
pub proof fn a_value_reads_back(attribute: Seq<u8>, at: nat, value: Seq<u8>)
    requires
        attribute.len() >= 24,
        holds_number(attribute, 16, value.len(), 4),
        holds_number(attribute, 20, at, 2),
        at + value.len() <= attribute.len(),
        attribute.subrange(at as int, (at + value.len()) as int) == value,
    ensures
        resident_bytes(attribute) == Ok::<_, MftParseError>(value),
{
    lemma_holds(attribute, 16, value.len(), 4);
    lemma_holds(attribute, 20, at, 2);
}

/// A file name that stands in the value of an attribute reads back: the parent's reference first, of
/// which 48 bits are its number, the time of change at byte 16, the sizes at 40 and 48, the flags at
/// 56, the length of the name at 64, its namespace at 65, and the name in UTF-16 from 66 on.
pub proof fn a_file_name_reads_back(
    attribute: Seq<u8>,
    value: Seq<u8>,
    sequence: nat,
    name: FileNameView,
    seconds: nat,
)
    requires
        attribute.len() >= 66,
        resident_bytes(attribute) == Ok::<_, MftParseError>(value),
        name.parent_record_number < 0x1_0000_0000_0000,
        sequence < 0x1_0000,
        name.parent_reference == name.parent_record_number + 0x1_0000_0000_0000 * sequence,
        utf16_units(name.name).len() <= 255,
        value.len() == 66 + 2 * utf16_units(name.name).len(),
        holds_number(value, 0, name.parent_reference as nat, 8),
        name.modified_unix == seconds - 11_644_473_600,
        holds_number(value, 16, 10_000_000 * seconds, 8),
        holds_number(value, 40, name.allocated_size as nat, 8),
        holds_number(value, 48, name.data_size as nat, 8),
        holds_number(value, 56, name.flags as nat, 4),
        value[64] == utf16_units(name.name).len(),
        value[65] == name.namespace,
        forall|i: int|
            0 <= i < utf16_units(name.name).len() ==> holds_number(
                value,
                66 + 2 * i,
                #[trigger] utf16_units(name.name)[i] as nat,
                2,
            ),
    ensures
        read_file_name(attribute) == Ok::<_, MftParseError>(name),
{
    let units = utf16_units(name.name);
    lemma_holds(value, 0, name.parent_reference as nat, 8);
    lemma_holds(value, 16, 10_000_000 * seconds, 8);
    lemma_holds(value, 40, name.allocated_size as nat, 8);
    lemma_holds(value, 48, name.data_size as nat, 8);
    lemma_holds(value, 56, name.flags as nat, 4);
    assert(name_units(value, value[64] as nat) =~= units) by {
        assert forall|i: int| 0 <= i < units.len() implies name_units(value, value[64] as nat)[i]
            == units[i] by {
            lemma_holds(value, 66 + 2 * i, units[i] as nat, 2);
        }
    }
    utf16_reads_back(name.name);
    assert(record_number_of(name.parent_reference) == name.parent_record_number);
    assert((10_000_000 * seconds) / 10_000_000 == seconds);
}

/// The sizes of data that lies outside the record stand at bytes 48 and 40 of its attribute; data in
/// the record itself is as large as its value, and takes as much.
pub proof fn data_sizes_read_back(attribute: Seq<u8>, size: u64, allocated: u64, runs_at: nat)
    ensures
        attribute.len() >= 64 && holds_number(attribute, 48, size as nat, 8) && holds_number(
            attribute,
            40,
            allocated as nat,
            8,
        ) && holds_number(attribute, 32, runs_at, 2) && runs_at < attribute.len() ==> data_sizes(
            attribute,
            true,
        ) == Ok::<_, MftParseError>((size, allocated)),
        attribute.len() >= 24 && holds_number(attribute, 16, size as nat, 4) ==> data_sizes(
            attribute,
            false,
        ) == Ok::<_, MftParseError>((size, size)),
{
    if attribute.len() >= 64 && holds_number(attribute, 48, size as nat, 8) && holds_number(
        attribute,
        40,
        allocated as nat,
        8,
    ) && holds_number(attribute, 32, runs_at, 2) {
        lemma_holds(attribute, 48, size as nat, 8);
        lemma_holds(attribute, 40, allocated as nat, 8);
        lemma_holds(attribute, 32, runs_at, 2);
    }
    if attribute.len() >= 24 && holds_number(attribute, 16, size as nat, 4) {
        lemma_holds(attribute, 16, size as nat, 4);
    }
}

/// What the attributes of a record are, from `offset` to `end`: the first begins at `offset` and each
/// other where the one before it ends; each tells its kind and its length in its first eight bytes, and
/// whether it lies outside the record in the next; and they stop only where no room is left for
/// another, or where the end mark stands.
pub open spec fn follow_each_other(b: Seq<u8>, offset: int, end: int, found: Seq<AttributeSpan>) -> bool
    decreases found.len(),
{
    if found.len() == 0 {
        offset + 8 > end || le(b, offset, 4) == 0xffff_ffff
    } else {
        let first = found[0];
        &&& first.start == offset
        &&& first.start + first.length <= end
        &&& first.length >= 16
        &&& first.kind != 0xffff_ffff
        &&& le(b, offset, 4) == first.kind
        &&& le(b, offset + 4, 4) == first.length
        &&& first.non_resident == (b[offset + 8] != 0)
        &&& follow_each_other(b, offset + first.length, end, found.drop_first())
    }
}

proof fn lemma_attributes_follow(
    b: Seq<u8>,
    offset: int,
    end: int,
    found: Seq<AttributeSpan>,
    all: Seq<AttributeSpan>,
)
    requires
        0 <= offset,
        end <= usize::MAX,
        read_attributes(b, offset, end, found) == Ok::<_, MftParseError>(all),
    ensures
        found.len() <= all.len(),
        all.take(found.len() as int) == found,
        follow_each_other(b, offset, end, all.skip(found.len() as int)),
    decreases end - offset,
{
    let n = found.len() as int;
    if offset + 8 > end || le(b, offset, 4) == ATTR_END {
        assert(all.take(n) =~= found);
        assert(all.skip(n) =~= Seq::<AttributeSpan>::empty());
    } else {
        let length = le(b, offset + 4, 4);
        le_is_bounded(b, offset, 4);
        le_is_bounded(b, offset + 4, 4);
        reveal_with_fuel(le_range, 5);
        let span = AttributeSpan {
            kind: le(b, offset, 4) as u32,
            length: length as u32,
            non_resident: b[offset + 8] != 0,
            start: offset as usize,
        };
        lemma_attributes_follow(b, offset + length, end, found.push(span), all);
        assert(all.take(n) =~= all.take(n + 1).drop_last());
        assert(found.push(span).drop_last() =~= found);
        assert(all[n] == all.take(n + 1)[n]);
        assert(all.skip(n).drop_first() =~= all.skip(n + 1));
        assert(all.skip(n)[0] == all[n]);
    }
}

/// The attributes of a record follow each other from the place that its header tells, up to the bytes
/// that are in use.
pub proof fn attributes_follow_each_other(
    b: Seq<u8>,
    header: FileRecordHeader,
    found: Seq<AttributeSpan>,
)
    requires
        b.len() <= usize::MAX,
        record_attributes(b, header) == Ok::<_, MftParseError>(found),
    ensures
        follow_each_other(
            b,
            header.first_attribute_offset as int,
            if header.bytes_in_use < b.len() {
                header.bytes_in_use as int
            } else {
                b.len() as int
            },
            found,
        ),
{
    lemma_attributes_follow(
        b,
        header.first_attribute_offset as int,
        attributes_end(b, header),
        Seq::empty(),
        found,
    );
    assert(found.skip(0) =~= found);
}

/// A record has the names of all its name attributes, in order, and the sizes and the runs of the last
/// of its data attributes that tells them; nothing else in it counts.
pub proof fn an_attribute_adds_what_it_tells(b: Seq<u8>, a: AttributeSpan, before: RecordView, after: RecordView)
    requires
        with_attribute(b, a, before) == Ok::<_, MftParseError>(after),
    ensures
        after.header == before.header,
        a.kind == 0x30 && !a.non_resident ==> (read_file_name(
            b.subrange(a.start as int, a.start + a.length),
        ) matches Ok(name) && after.file_names == before.file_names.push(name)),
        !(a.kind == 0x30 && !a.non_resident) ==> after.file_names == before.file_names,
        a.kind == 0x80 ==> data_sizes(
            b.subrange(a.start as int, a.start + a.length),
            a.non_resident,
        ) == Ok::<_, MftParseError>((after.data_size, after.allocated_size)),
        a.kind != 0x80 ==> after.data_size == before.data_size && after.allocated_size
            == before.allocated_size,
        a.kind == 0x80 && a.non_resident ==> {
            let own = b.subrange(a.start as int, a.start + a.length);
            read_runs(own.skip(le(own, 32, 2) as int), 0, 0, Seq::empty()) == Ok::<_, MftParseError>(
                after.data_runs,
            )
        },
        !(a.kind == 0x80 && a.non_resident) ==> after.data_runs == before.data_runs,
{
}

/// Where the last two bytes of a sector stand.
pub open spec fn sector_end(k: int, sector: int) -> int {
    sector * k - 2
}

/// Whether a byte is one of the last two of a sector.
pub open spec fn ends_a_sector(i: int, sector: int, sectors: int) -> bool {
    exists|k: int|
        1 <= k <= sectors && (i == #[trigger] sector_end(k, sector) || i == sector_end(k, sector) + 1)
}

/// A record that was written with a number at the end of every sector, and with what stood there kept
/// behind that number, is read as it was before. The header tells at byte 4 where the number stands,
/// and at byte 6 how many pairs of bytes there are with it.
pub proof fn a_protected_record_is_restored(
    original: Seq<u8>,
    b: Seq<u8>,
    sector: int,
    at: nat,
    sectors: nat,
)
    requires
        b.len() == original.len(),
        usa_fits(b, sector),
        usa_is_apart(b, sector),
        holds_number(b, 4, at, 2),
        holds_number(b, 6, sectors + 1, 2),
        forall|k: int| #![trigger sector_end(k, sector)]
            1 <= k <= sectors ==> {
                let end = sector_end(k, sector);
                &&& b[end] == b[at as int]
                &&& b[end + 1] == b[at + 1int]
                &&& original[end] == b[at + 2 * k]
                &&& original[end + 1] == b[at + 2 * k + 1]
            },
        forall|i: int|
            0 <= i < b.len() && !ends_a_sector(i, sector, sectors as int) ==> #[trigger] original[i]
                == b[i],
    ensures
        restored(b, sector, sectors as int) == (original, true),
{
    lemma_holds(b, 4, at, 2);
    lemma_holds(b, 6, sectors + 1, 2);
    assert(usa_offset(b) == at);
    assert(usa_sectors(b) == sectors);
    assert forall|k: int| trailer(k, sector) == #[trigger] sector_end(k, sector) by {
        assert(k * sector == sector * k) by (nonlinear_arith);
    }
    assert(trailers_match(b, sector)) by {
        assert forall|k: int| 1 <= k <= usa_sectors(b) implies b[#[trigger] trailer(k, sector)]
            == b[usa_offset(b)] && b[trailer(k, sector) + 1] == b[usa_offset(b) + 1] by {
            assert(trailer(k, sector) == sector_end(k, sector));
        }
    }
    fixups_restore_sector_ends(b, sector);
    let s = restored(b, sector, usa_sectors(b)).0;
    assert forall|i: int| 0 <= i < s.len() implies s[i] == original[i] by {
        if ends_a_sector(i, sector, sectors as int) {
            let k = choose|k: int|
                1 <= k <= sectors && (i == #[trigger] sector_end(k, sector) || i == sector_end(k, sector)
                    + 1);
            assert(trailer(k, sector) == sector_end(k, sector));
            assert(s[trailer(k, sector)] == b[usa_offset(b) + 2 * k]);
        } else {
            assert(original[i] == b[i]);
            if in_trailer(i, sector, sectors as int) {
                let k = choose|k: int|
                    1 <= k <= sectors && (i == #[trigger] trailer(k, sector) || i == trailer(k, sector)
                        + 1);
                assert(trailer(k, sector) == sector_end(k, sector));
            }
        }
    }
    assert(s =~= original);
}

} // verus!
