//! What a scan of a whole volume takes from a file record: one name, one time and the sizes.

use vstd::prelude::*;

use crate::le::{le, read_u16, read_u32, read_u64};
use crate::mft::{apply_fixups, data_sizes, filetime_to_unix, fixed_up, iter_attributes,
    parse_file_name, read_file_name, read_header, read_record, record_attributes, resident_bytes,
    resident_value, restored, span_bytes, span_fits, unix_time, usa_fits, usa_sectors, with_attribute,
    with_attributes, AttributeSpan, FileNameAttribute, FileNameView, FileRecordHeader, MftParseError,
    RecordView, ATTR_DATA, ATTR_FILE_NAME, ATTR_STANDARD_INFORMATION};

verus! {

/// The namespace of short names that stand beside a long one.
pub const DOS_NAMESPACE: u8 = 2;

/// The name of a scanned record.
#[derive(Debug, Clone, PartialEq, Eq)]
pub struct ScannedFileNameAttribute {
    pub parent_record_number: u64,
    pub allocated_size: u64,
    pub data_size: u64,
    pub modified_unix: i64,
    pub name: String,
}

/// A scanned record.
#[derive(Debug, Clone, PartialEq, Eq)]
pub struct ScannedFileRecord {
    pub header: FileRecordHeader,
    pub standard_modified_unix: Option<i64>,
    pub file_name: Option<ScannedFileNameAttribute>,
    pub data_size: u64,
    pub allocated_size: u64,
}

/// A scanned record, as the contracts speak of it.
pub struct ScannedView {
    pub header: FileRecordHeader,
    pub standard_modified_unix: Option<i64>,
    pub file_name: Option<FileNameView>,
    pub data_size: u64,
    pub allocated_size: u64,
}

/// Whether the scanned name holds what the file name attribute tells.
pub open spec fn is_name_of(scanned: Option<ScannedFileNameAttribute>, name: Option<FileNameView>) -> bool {
    match (scanned, name) {
        (Some(s), Some(n)) => {
            &&& s.parent_record_number == n.parent_record_number
            &&& s.allocated_size == n.allocated_size
            &&& s.data_size == n.data_size
            &&& s.modified_unix == n.modified_unix
            &&& s.name@ == n.name
        },
        (None, None) => true,
        _ => false,
    }
}

/// Whether the scanned record holds what the model tells.
pub open spec fn is_record_of(scanned: ScannedFileRecord, record: ScannedView) -> bool {
    &&& scanned.header == record.header
    &&& scanned.standard_modified_unix == record.standard_modified_unix
    &&& is_name_of(scanned.file_name, record.file_name)
    &&& scanned.data_size == record.data_size
    &&& scanned.allocated_size == record.allocated_size
}

/// Which of two names a scan keeps: the first, unless it is a short name and the second is not.
pub open spec fn preferred_name(first: Option<FileNameView>, second: FileNameView) -> FileNameView {
    match first {
        Some(name) => if name.namespace == DOS_NAMESPACE && second.namespace != DOS_NAMESPACE {
            second
        } else {
            name
        },
        None => second,
    }
}

/// The record after one more of its attributes.
pub open spec fn scan_attribute(b: Seq<u8>, a: AttributeSpan, record: ScannedView) -> Result<
    ScannedView,
    MftParseError,
> {
    let bytes = span_bytes(b, a);
    if a.kind == ATTR_STANDARD_INFORMATION && !a.non_resident {
        match resident_bytes(bytes) {
            Err(e) => Err(e),
            Ok(value) => if value.len() >= 16 {
                Ok(
                    ScannedView {
                        standard_modified_unix: Some(unix_time(le(value, 8, 8)) as i64),
                        ..record
                    },
                )
            } else {
                Ok(record)
            },
        }
    } else if a.kind == ATTR_FILE_NAME && !a.non_resident {
        match read_file_name(bytes) {
            Err(e) => Err(e),
            Ok(name) => Ok(
                ScannedView { file_name: Some(preferred_name(record.file_name, name)), ..record },
            ),
        }
    } else if a.kind == ATTR_DATA {
        match data_sizes(bytes, a.non_resident) {
            Err(e) => Err(e),
            Ok((data_size, allocated_size)) => Ok(
                ScannedView { data_size, allocated_size, ..record },
            ),
        }
    } else {
        Ok(record)
    }
}

/// The record after the attributes from number `k` on.
pub open spec fn scan_attributes(
    b: Seq<u8>,
    attributes: Seq<AttributeSpan>,
    k: int,
    record: ScannedView,
) -> Result<ScannedView, MftParseError>
    decreases attributes.len() - k,
{
    if k < 0 || k >= attributes.len() {
        Ok(record)
    } else {
        match scan_attribute(b, attributes[k], record) {
            Ok(next) => scan_attributes(b, attributes, k + 1, next),
            Err(e) => Err(e),
        }
    }
}

/// What scanning a record gives.
pub open spec fn scan_record(b: Seq<u8>, sector: int) -> Result<ScannedView, MftParseError> {
    match fixed_up(b, sector) {
        None => Err(MftParseError::InvalidFixup),
        Some(fixed) => match read_header(fixed) {
            Err(e) => Err(e),
            Ok(header) => match record_attributes(fixed, header) {
                Err(e) => Err(e),
                Ok(attributes) => scan_attributes(
                    fixed,
                    attributes,
                    0,
                    ScannedView {
                        header,
                        standard_modified_unix: None,
                        file_name: None,
                        data_size: 0,
                        allocated_size: 0,
                    },
                ),
            },
        },
    }
}

/// The name that a scan keeps so far, as the contracts speak of it.
spec fn kept(name: Option<FileNameAttribute>) -> Option<FileNameView> {
    match name {
        Some(name) => Some(name.model()),
        None => None,
    }
}

/// The sizes that a data attribute tells: the data's and the allocated.
fn read_data_sizes(bytes: &[u8], a: AttributeSpan) -> (r: Result<(u64, u64), MftParseError>)
    requires
        bytes@.len() == a.length,
    ensures
        r == data_sizes(bytes@, a.non_resident),
{
    if a.non_resident {
        if bytes.len() < 64 {
            return Err(MftParseError::InvalidAttributeLength { offset: 0, length: a.length });
        }
        if read_u16(bytes, 32) as usize >= bytes.len() {
            return Err(MftParseError::InvalidRunlist);
        }
        Ok((read_u64(bytes, 48), read_u64(bytes, 40)))
    } else {
        if bytes.len() < 24 {
            return Err(MftParseError::InvalidAttributeLength { offset: 0, length: a.length });
        }
        let size: u64 = read_u32(bytes, 16) as u64;
        Ok((size, size))
    }
}

/// Scans a file record, whose fixups are applied in place.
pub fn parse_scanned_file_record_in_place(record: &mut [u8], bytes_per_sector: u32) -> (r: Result<
    ScannedFileRecord,
    MftParseError,
>)
    ensures
        match r {
            Ok(scanned) => scan_record(old(record)@, bytes_per_sector as int) is Ok && is_record_of(
                scanned,
                scan_record(old(record)@, bytes_per_sector as int)->Ok_0,
            ),
            Err(e) => scan_record(old(record)@, bytes_per_sector as int) == Err::<ScannedView, _>(e),
        },
        final(record)@.len() == old(record)@.len(),
        final(record)@ == if usa_fits(old(record)@, bytes_per_sector as int) {
            restored(old(record)@, bytes_per_sector as int, usa_sectors(old(record)@)).0
        } else {
            old(record)@
        },
{
    let ghost given = record@;
    let ghost sector = bytes_per_sector as int;
    match apply_fixups(record, bytes_per_sector as usize) {
        Ok(()) => {},
        Err(e) => {
            return Err(e);
        },
    }
    let ghost b = record@;
    let header = match FileRecordHeader::parse(record) {
        Ok(header) => header,
        Err(e) => {
            return Err(e);
        },
    };
    let attributes = match iter_attributes(record, header) {
        Ok(attributes) => attributes,
        Err(e) => {
            return Err(e);
        },
    };
    let mut standard_modified_unix: Option<i64> = None;
    let mut name: Option<FileNameAttribute> = None;
    let mut data_size: u64 = 0;
    let mut allocated_size: u64 = 0;
    let mut k: usize = 0;
    while k < attributes.len()
        invariant
            b == record@,
            given == old(record)@,
            b.len() == given.len(),
            sector == bytes_per_sector,
            b == if usa_fits(given, sector) {
                restored(given, sector, usa_sectors(given)).0
            } else {
                given
            },
            k <= attributes@.len(),
            forall|i: int| 0 <= i < attributes@.len() ==> span_fits(#[trigger] attributes@[i], b.len()),
            scan_record(given, sector) == scan_attributes(
                b,
                attributes@,
                k as int,
                ScannedView {
                    header,
                    standard_modified_unix,
                    file_name: kept(name),
                    data_size,
                    allocated_size,
                },
            ),
        decreases attributes@.len() - k,
    {
        let a = attributes[k];
        assert(span_fits(attributes@[k as int], b.len()));
        assert(record.len() == record@.len());
        let bytes = vstd::slice::slice_subrange(record, a.start, a.start + a.length as usize);
        assert(bytes@ == span_bytes(b, a));
        if a.kind == ATTR_STANDARD_INFORMATION && !a.non_resident {
            match resident_value(bytes) {
                Ok(value) => {
                    if value.len() >= 16 {
                        standard_modified_unix = Some(filetime_to_unix(read_u64(value, 8)));
                    }
                },
                Err(e) => {
                    return Err(e);
                },
            }
        } else if a.kind == ATTR_FILE_NAME && !a.non_resident {
            match parse_file_name(bytes) {
                Ok(found) => {
                    let better = match &name {
                        Some(first) => first.namespace == DOS_NAMESPACE && found.namespace
                            != DOS_NAMESPACE,
                        None => true,
                    };
                    if better {
                        name = Some(found);
                    }
                },
                Err(e) => {
                    return Err(e);
                },
            }
        } else if a.kind == ATTR_DATA {
            match read_data_sizes(bytes, a) {
                Ok((data, allocated)) => {
                    data_size = data;
                    allocated_size = allocated;
                },
                Err(e) => {
                    return Err(e);
                },
            }
        }
        k += 1;
    }
    let file_name = match name {
        Some(found) => Some(
            ScannedFileNameAttribute {
                parent_record_number: found.parent_record_number,
                allocated_size: found.allocated_size,
                data_size: found.data_size,
                modified_unix: found.modified_unix,
                name: found.name,
            },
        ),
        None => None,
    };
    Ok(
        ScannedFileRecord { header, standard_modified_unix, file_name, data_size, allocated_size },
    )
}

// ---------------------------------------------------------------------------------------------
// Laws
// ---------------------------------------------------------------------------------------------

/// Of two names a scan keeps the first, unless only the first is a short one. So a long name is never
/// given up for a short one, in whichever order they stand.
pub proof fn a_long_name_is_kept(first: FileNameView, second: FileNameView)
    ensures
        ({
            let kept = preferred_name(Some(first), second);
            &&& kept == first || kept == second
            &&& first.namespace != 2 ==> kept == first
            &&& first.namespace == 2 && second.namespace != 2 ==> kept == second
            &&& first.namespace == 2 && second.namespace == 2 ==> kept == first
            &&& preferred_name(None, second) == second
        }),
{
}

/// An attribute of a scanned record tells one thing and leaves the others: the standard information the
/// time of change, a name attribute a name, and a data attribute the sizes.
pub proof fn an_attribute_tells_one_thing(b: Seq<u8>, a: AttributeSpan, before: ScannedView, after: ScannedView)
    requires
        scan_attribute(b, a, before) == Ok::<_, MftParseError>(after),
    ensures
        after.header == before.header,
        !(a.kind == 0x10 && !a.non_resident) ==> after.standard_modified_unix
            == before.standard_modified_unix,
        !(a.kind == 0x30 && !a.non_resident) ==> after.file_name == before.file_name,
        a.kind != 0x80 ==> after.data_size == before.data_size && after.allocated_size
            == before.allocated_size,
        a.kind == 0x10 && !a.non_resident ==> (resident_bytes(
            b.subrange(a.start as int, a.start + a.length),
        ) matches Ok(value) && (value.len() >= 16 ==> after.standard_modified_unix == Some(
            (le(value, 8, 8) / 10_000_000 - 11_644_473_600) as i64,
        )) && (value.len() < 16 ==> after.standard_modified_unix == before.standard_modified_unix)),
        a.kind == 0x30 && !a.non_resident ==> (read_file_name(
            b.subrange(a.start as int, a.start + a.length),
        ) matches Ok(name) && after.file_name matches Some(kept) && (kept == name
            || before.file_name == Some(kept)) && (before.file_name is None ==> kept == name) && (
        name.namespace == 2 && before.file_name is Some ==> before.file_name == Some(kept)) && (
        name.namespace != 2 ==> kept.namespace != 2)),
        a.kind == 0x80 ==> data_sizes(
            b.subrange(a.start as int, a.start + a.length),
            a.non_resident,
        ) == Ok::<_, MftParseError>((after.data_size, after.allocated_size)),
{
}

/// A record is scanned as it would be read in full: it has the same header, and the same sizes.
proof fn lemma_scanned_like_read(
    b: Seq<u8>,
    attributes: Seq<AttributeSpan>,
    k: int,
    scanned: ScannedView,
    read: RecordView,
    after: ScannedView,
    full: RecordView,
)
    requires
        0 <= k,
        scan_attributes(b, attributes, k, scanned) == Ok::<_, MftParseError>(after),
        with_attributes(b, attributes, k, read) == Ok::<_, MftParseError>(full),
        scanned.header == read.header,
        scanned.data_size == read.data_size,
        scanned.allocated_size == read.allocated_size,
        scanned.file_name is None <==> read.file_names.len() == 0,
        scanned.file_name matches Some(name) ==> read.file_names.contains(name) && (name.namespace == 2
            ==> forall|j: int|
            0 <= j < read.file_names.len() ==> (#[trigger] read.file_names[j]).namespace == 2),
    ensures
        after.header == full.header,
        after.data_size == full.data_size,
        after.allocated_size == full.allocated_size,
        after.file_name is None <==> full.file_names.len() == 0,
        after.file_name matches Some(name) ==> full.file_names.contains(name) && (name.namespace == 2
            ==> forall|j: int|
            0 <= j < full.file_names.len() ==> (#[trigger] full.file_names[j]).namespace == 2),
    decreases attributes.len() - k,
{
    if k < attributes.len() {
        let a = attributes[k];
        let then = scan_attribute(b, a, scanned)->Ok_0;
        let next = with_attribute(b, a, read)->Ok_0;
        if a.kind == ATTR_FILE_NAME && !a.non_resident {
            let name = read_file_name(span_bytes(b, a))->Ok_0;
            assert(next.file_names == read.file_names.push(name));
            assert(next.file_names[read.file_names.len() as int] == name);
            if let Some(kept) = scanned.file_name {
                let j = choose|j: int| 0 <= j < read.file_names.len() && read.file_names[j] == kept;
                assert(next.file_names[j] == kept);
            }
        }
        lemma_scanned_like_read(b, attributes, k + 1, then, next, after, full);
    }
}

/// A record that can be read in full is scanned to the same header and the same sizes, and to one of
/// its names: a short one only where it has no other.
pub proof fn a_record_is_scanned_as_it_is_read(b: Seq<u8>, sector: int, scanned: ScannedView, full: RecordView)
    requires
        scan_record(b, sector) == Ok::<_, MftParseError>(scanned),
        read_record(b, sector) == Ok::<_, MftParseError>(full),
    ensures
        scanned.header == full.header,
        scanned.data_size == full.data_size,
        scanned.allocated_size == full.allocated_size,
        scanned.file_name is None <==> full.file_names.len() == 0,
        scanned.file_name matches Some(name) ==> full.file_names.contains(name) && (name.namespace == 2
            ==> forall|j: int|
            0 <= j < full.file_names.len() ==> (#[trigger] full.file_names[j]).namespace == 2),
{
    let fixed = fixed_up(b, sector)->0;
    let header = read_header(fixed)->Ok_0;
    let attributes = record_attributes(fixed, header)->Ok_0;
    lemma_scanned_like_read(
        fixed,
        attributes,
        0,
        ScannedView {
            header,
            standard_modified_unix: None,
            file_name: None,
            data_size: 0,
            allocated_size: 0,
        },
        RecordView {
            header,
            file_names: Seq::empty(),
            data_size: 0,
            allocated_size: 0,
            data_runs: Seq::empty(),
        },
        scanned,
        full,
    );
}

} // verus!
