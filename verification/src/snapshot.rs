//! A file graph as bytes, and back.
//!
//! A snapshot is the eight bytes `DLSNP001`, the number of entries, and for each entry its parent,
//! marks, modification time, size, allocated size, the length of its name and the name in UTF-8.

use vstd::prelude::*;
use vstd::utf8::{decode_utf8, encode_utf8, valid_utf8};

use crate::graph::{has_marks, is_forest, kind_bits, EntryFlags, EntryId, EntryMetadata, EntryView,
    FileGraph, FileGraphBuilder, FileGraphError, FileKind};
use crate::le::{le, le_agrees, le_bytes, le_bytes_len, le_bytes_spell, le_range, read_u16, read_u32,
    read_u64, signed64, signed64_of_unsigned64, to_signed, to_unsigned, unsigned64, write_le};
use crate::text::str_from_utf8;

verus! {

/// Stands in the place of the parent of an entry that has none.
pub const NO_PARENT: u32 = u32::MAX;

/// How many bytes stand before the first entry.
pub const HEADER_BYTES: usize = 12;

/// How many bytes of an entry stand before its name.
pub const ENTRY_BYTES: usize = 34;

/// Why a snapshot could not be written or read.
#[derive(Debug, Clone, Copy, PartialEq, Eq, Structural)]
pub enum SnapshotError {
    /// The bytes end before the snapshot does.
    UnexpectedEof,
    /// A name is not UTF-8.
    Utf8,
    /// The graph refused an entry.
    Graph(FileGraphError),
    /// The bytes do not begin as a snapshot does.
    InvalidHeader,
    /// An entry's parent does not stand before it.
    InvalidParent { entry: u32, parent: u32 },
    /// The graph has more entries than a snapshot can hold.
    TooManyEntries,
    /// A name is longer than a snapshot can hold.
    StringTooLarge,
}

// ---------------------------------------------------------------------------------------------
// The format
// ---------------------------------------------------------------------------------------------

/// The first eight bytes: `DLSNP001`.
pub open spec fn magic() -> Seq<u8> {
    seq![68u8, 76u8, 83u8, 78u8, 80u8, 48u8, 48u8, 49u8]
}

/// The number that stands for a parent.
pub open spec fn parent_number(parent: Option<u32>) -> u32 {
    match parent {
        Some(p) => p,
        None => NO_PARENT,
    }
}

/// An entry up to its name.
pub open spec fn entry_head(e: EntryView) -> Seq<u8> {
    le_bytes(parent_number(e.parent) as nat, 4) + le_bytes(e.flags as nat, 2) + le_bytes(
        unsigned64(e.modified as int),
        8,
    ) + le_bytes(e.size as nat, 8) + le_bytes(e.allocated as nat, 8) + le_bytes(
        encode_utf8(e.name).len(),
        4,
    )
}

/// An entry.
pub open spec fn entry_bytes(e: EntryView) -> Seq<u8> {
    entry_head(e) + encode_utf8(e.name)
}

/// The first `n` entries.
pub open spec fn entries_bytes(g: Seq<EntryView>, n: int) -> Seq<u8>
    decreases n,
{
    if n <= 0 {
        Seq::empty()
    } else {
        entries_bytes(g, n - 1) + entry_bytes(g[n - 1])
    }
}

/// What stands before the entries.
pub open spec fn header_bytes(count: nat) -> Seq<u8> {
    magic() + le_bytes(count, 4)
}

/// The snapshot of a graph.
pub open spec fn snapshot_bytes(g: Seq<EntryView>) -> Seq<u8> {
    header_bytes(g.len()) + entries_bytes(g, g.len() as int)
}

/// Whether the name of an entry fits.
pub open spec fn name_fits(e: EntryView) -> bool {
    encode_utf8(e.name).len() <= u32::MAX
}

/// Whether entry `k` is the first whose name does not fit.
pub open spec fn is_first_long_name(g: Seq<EntryView>, k: int) -> bool {
    &&& 0 <= k < g.len()
    &&& !name_fits(g[k])
    &&& forall|j: int| 0 <= j < k ==> name_fits(#[trigger] g[j])
}

/// The kind that the marks of an entry tell.
pub open spec fn kind_of_flags(flags: u16) -> FileKind {
    if has_marks(flags, EntryFlags::DIRECTORY) {
        FileKind::Directory
    } else if has_marks(flags, EntryFlags::SYMLINK) {
        FileKind::Symlink
    } else {
        FileKind::File
    }
}

/// The marks that a read entry gets: a directory is no symbolic link.
pub open spec fn read_flags(flags: u16) -> u16 {
    kind_bits(kind_of_flags(flags)) | (flags & !3u16)
}

/// The entry numbered `idx` that the bytes from `pos` on hold, and where it ends.
pub open spec fn read_entry(b: Seq<u8>, pos: int, idx: int) -> Result<
    (EntryView, int),
    SnapshotError,
> {
    if pos + ENTRY_BYTES > b.len() {
        Err(SnapshotError::UnexpectedEof)
    } else {
        let parent = le(b, pos, 4);
        let start = pos + ENTRY_BYTES;
        let end = start + le(b, pos + 30, 4);
        if end > b.len() {
            Err(SnapshotError::UnexpectedEof)
        } else if !valid_utf8(b.subrange(start, end)) {
            Err(SnapshotError::Utf8)
        } else if parent != NO_PARENT && parent >= idx {
            Err(SnapshotError::InvalidParent { entry: idx as u32, parent: parent as u32 })
        } else {
            Ok(
                (
                    EntryView {
                        parent: if parent == NO_PARENT {
                            None
                        } else {
                            Some(parent as u32)
                        },
                        name: decode_utf8(b.subrange(start, end)),
                        flags: read_flags(le(b, pos + 4, 2) as u16),
                        modified: signed64(le(b, pos + 6, 8)) as i64,
                        size: le(b, pos + 14, 8) as u64,
                        allocated: le(b, pos + 22, 8) as u64,
                    },
                    end,
                ),
            )
        }
    }
}

/// The entries behind `found` up to the number `count`, which the bytes from `pos` on hold.
pub open spec fn read_entries(b: Seq<u8>, pos: int, count: int, found: Seq<EntryView>) -> Result<
    Seq<EntryView>,
    SnapshotError,
>
    decreases count - found.len(),
{
    if found.len() >= count {
        Ok(found)
    } else {
        match read_entry(b, pos, found.len() as int) {
            Err(e) => Err(e),
            Ok((entry, next)) => read_entries(b, next, count, found.push(entry)),
        }
    }
}

/// What reading the bytes as a snapshot gives.
pub open spec fn read_snapshot(b: Seq<u8>) -> Result<Seq<EntryView>, SnapshotError> {
    if b.len() < 8 {
        Err(SnapshotError::UnexpectedEof)
    } else if b.take(8) != magic() {
        Err(SnapshotError::InvalidHeader)
    } else if b.len() < HEADER_BYTES {
        Err(SnapshotError::UnexpectedEof)
    } else {
        read_entries(b, HEADER_BYTES as int, le(b, 8, 4) as int, Seq::empty())
    }
}

// ---------------------------------------------------------------------------------------------
// Writing
// ---------------------------------------------------------------------------------------------

/// Appends the snapshot of the graph to `writer`.
///
/// A name that does not fit stops the writing before its entry.
pub fn export_snapshot(graph: &FileGraph, writer: &mut Vec<u8>) -> (r: Result<(), SnapshotError>)
    requires
        graph.wf(),
    ensures
        r == if graph@.len() > u32::MAX {
            Err(SnapshotError::TooManyEntries)
        } else if exists|i: int| 0 <= i < graph@.len() && !name_fits(#[trigger] graph@[i]) {
            Err(SnapshotError::StringTooLarge)
        } else {
            Ok(())
        },
        r is Ok ==> final(writer)@ == old(writer)@ + snapshot_bytes(graph@),
        r == Err::<(), _>(SnapshotError::TooManyEntries) ==> final(writer)@ == old(writer)@,
        r == Err::<(), _>(SnapshotError::StringTooLarge) ==> exists|k: int| #[trigger]
            is_first_long_name(graph@, k) && final(writer)@ == old(writer)@ + header_bytes(
                graph@.len(),
            ) + entries_bytes(graph@, k),
{
    let ghost g = graph@;
    let ghost before = writer@;
    let count: usize = graph.len();
    if count > u32::MAX as usize {
        return Err(SnapshotError::TooManyEntries);
    }
    write_magic(writer);
    write_le(writer, count as u64, 4);
    assert(writer@ =~= before + header_bytes(g.len()) + entries_bytes(g, 0));
    let mut i: usize = 0;
    while i < count
        invariant
            graph.wf(),
            g == graph@,
            before == old(writer)@,
            count == g.len(),
            count <= u32::MAX,
            i <= count,
            writer@ == before + header_bytes(g.len()) + entries_bytes(g, i as int),
            forall|k: int| 0 <= k < i ==> name_fits(#[trigger] g[k]),
        decreases count - i,
    {
        let id = EntryId(i as u32);
        let ghost shown = writer@;
        let fits = write_entry(graph, id, writer);
        if !fits {
            assert(is_first_long_name(g, i as int));
            return Err(SnapshotError::StringTooLarge);
        }
        assert(writer@ =~= before + header_bytes(g.len()) + entries_bytes(g, i + 1));
        i += 1;
    }
    assert(writer@ =~= before + snapshot_bytes(g));
    Ok(())
}

fn write_magic(writer: &mut Vec<u8>)
    ensures
        final(writer)@ == old(writer)@ + magic(),
{
    writer.push(68);
    writer.push(76);
    writer.push(83);
    writer.push(78);
    writer.push(80);
    writer.push(48);
    writer.push(48);
    writer.push(49);
    assert(writer@ =~= old(writer)@ + magic());
}

/// Appends an entry, unless its name does not fit.
fn write_entry(graph: &FileGraph, id: EntryId, writer: &mut Vec<u8>) -> (fits: bool)
    requires
        graph.wf(),
        id.0 < graph@.len(),
    ensures
        fits == name_fits(graph@[id.0 as int]),
        fits ==> final(writer)@ == old(writer)@ + entry_bytes(graph@[id.0 as int]),
        !fits ==> final(writer)@ == old(writer)@,
{
    let ghost e = graph@[id.0 as int];
    let ghost before = writer@;
    match (graph.entry(id), graph.stats(id), graph.name(id)) {
        (Some(entry), Some(stats), Some(text)) => {
            let name = text.as_bytes();
            if name.len() > u32::MAX as usize {
                return false;
            }
            let parent: u32 = match entry.parent {
                Some(p) => p.0,
                None => NO_PARENT,
            };
            assert(parent == parent_number(e.parent));
            write_le(writer, parent as u64, 4);
            write_le(writer, entry.flags.bits() as u64, 2);
            write_le(writer, to_unsigned(entry.modified_unix), 8);
            write_le(writer, stats.own_size.bytes(), 8);
            write_le(writer, stats.own_allocated.bytes(), 8);
            write_le(writer, name.len() as u64, 4);
            assert(writer@ =~= before + entry_head(e));
            writer.extend_from_slice(name);
            assert(writer@ =~= before + entry_bytes(e));
            true
        },
        _ => {
            assert(false);
            false
        },
    }
}

// ---------------------------------------------------------------------------------------------
// Reading
// ---------------------------------------------------------------------------------------------

/// The kind that the marks of an entry tell.
pub fn kind_from_flags(flags: EntryFlags) -> (r: FileKind)
    ensures
        r == kind_of_flags(flags@),
{
    if flags.contains(EntryFlags::DIRECTORY) {
        FileKind::Directory
    } else if flags.contains(EntryFlags::SYMLINK) {
        FileKind::Symlink
    } else {
        FileKind::File
    }
}

/// Reads a snapshot. What stands behind the last entry is not looked at.
pub fn import_snapshot(reader: &[u8]) -> (r: Result<FileGraph, SnapshotError>)
    ensures
        match r {
            Ok(graph) => graph.wf() && read_snapshot(reader@) == Ok::<_, SnapshotError>(graph@),
            Err(e) => read_snapshot(reader@) == Err::<Seq<EntryView>, _>(e),
        },
{
    if reader.len() < 8 {
        return Err(SnapshotError::UnexpectedEof);
    }
    if !begins_with_magic(reader) {
        return Err(SnapshotError::InvalidHeader);
    }
    if reader.len() < HEADER_BYTES {
        return Err(SnapshotError::UnexpectedEof);
    }
    let count: u32 = read_u32(reader, 8);
    let mut builder = FileGraphBuilder::without_name_dedup();
    let mut pos: usize = HEADER_BYTES;
    let mut idx: u32 = 0;
    while idx < count
        invariant
            builder.wf(),
            builder@.len() == idx,
            idx <= count,
            pos <= reader@.len(),
            read_snapshot(reader@) == read_entries(reader@, pos as int, count as int, builder@),
        decreases count - idx,
    {
        assert(reader.len() == reader@.len());
        let ghost expected = read_entry(reader@, pos as int, idx as int);
        if reader.len() - pos < ENTRY_BYTES {
            return Err(SnapshotError::UnexpectedEof);
        }
        let parent: u32 = read_u32(reader, pos);
        let flags = EntryFlags::from_bits_retain(read_u16(reader, pos + 4));
        let modified_unix: i64 = to_signed(read_u64(reader, pos + 6));
        let size: u64 = read_u64(reader, pos + 14);
        let allocated: u64 = read_u64(reader, pos + 22);
        let name_len: u32 = read_u32(reader, pos + 30);
        let start: usize = pos + ENTRY_BYTES;
        if reader.len() - start < name_len as usize {
            return Err(SnapshotError::UnexpectedEof);
        }
        let end: usize = start + name_len as usize;
        let name = match str_from_utf8(vstd::slice::slice_subrange(reader, start, end)) {
            Some(text) => text.to_owned(),
            None => {
                return Err(SnapshotError::Utf8);
            },
        };
        let above = if parent == NO_PARENT {
            None
        } else if parent < idx {
            Some(EntryId(parent))
        } else {
            return Err(SnapshotError::InvalidParent { entry: idx, parent });
        };
        let kind = kind_from_flags(flags);
        let mut extra_flags = flags;
        extra_flags.remove(EntryFlags::DIRECTORY | EntryFlags::SYMLINK);
        proof {
            assert(1u16 | 2u16 == 3u16) by (bit_vector);
        }
        let metadata = EntryMetadata { kind, size, allocated, modified_unix, extra_flags };
        let ghost found = builder@;
        match builder.add_entry_with_flags_owned_name(above, name, metadata) {
            Ok(_) => {},
            Err(e) => {
                assert(false);
                return Err(SnapshotError::Graph(e));
            },
        }
        assert(builder@.last() == expected->Ok_0.0);
        assert(builder@ == found.push(expected->Ok_0.0));
        pos = end;
        idx += 1;
    }
    Ok(builder.finish())
}

fn begins_with_magic(reader: &[u8]) -> (r: bool)
    requires
        reader@.len() >= 8,
    ensures
        r == (reader@.take(8) == magic()),
{
    let r = reader[0] == 68 && reader[1] == 76 && reader[2] == 83 && reader[3] == 78 && reader[4] == 80
        && reader[5] == 48 && reader[6] == 48 && reader[7] == 49;
    proof {
        let head = reader@.take(8);
        if r {
            assert(head =~= magic());
        } else {
            assert(head[0] == reader@[0] && head[1] == reader@[1] && head[2] == reader@[2] && head[3]
                == reader@[3] && head[4] == reader@[4] && head[5] == reader@[5] && head[6]
                == reader@[6] && head[7] == reader@[7]);
        }
    }
    r
}

// ---------------------------------------------------------------------------------------------
// Laws
// ---------------------------------------------------------------------------------------------

/// Whether a snapshot can hold the entry and give it back as it is: its name fits, and it is not
/// marked both as a directory and as a symbolic link.
pub open spec fn survives(e: EntryView) -> bool {
    &&& name_fits(e)
    &&& !has_marks(e.flags, 3)
}

proof fn lemma_entry_head(e: EntryView)
    requires
        name_fits(e),
    ensures
        entry_head(e).len() == ENTRY_BYTES,
        le(entry_head(e), 0, 4) == parent_number(e.parent),
        le(entry_head(e), 4, 2) == e.flags,
        le(entry_head(e), 6, 8) == unsigned64(e.modified as int),
        le(entry_head(e), 14, 8) == e.size,
        le(entry_head(e), 22, 8) == e.allocated,
        le(entry_head(e), 30, 4) == encode_utf8(e.name).len(),
{
    reveal_with_fuel(le_range, 9);
    signed64_of_unsigned64(e.modified as int);
    let head = entry_head(e);
    let a = le_bytes(parent_number(e.parent) as nat, 4);
    let b = le_bytes(e.flags as nat, 2);
    let c = le_bytes(unsigned64(e.modified as int), 8);
    let d = le_bytes(e.size as nat, 8);
    let f = le_bytes(e.allocated as nat, 8);
    let h = le_bytes(encode_utf8(e.name).len(), 4);
    le_bytes_spell(parent_number(e.parent) as nat, 4);
    le_bytes_spell(e.flags as nat, 2);
    le_bytes_spell(unsigned64(e.modified as int), 8);
    le_bytes_spell(e.size as nat, 8);
    le_bytes_spell(e.allocated as nat, 8);
    le_bytes_spell(encode_utf8(e.name).len(), 4);
    lemma_field(head, 0, a);
    lemma_field(head, 4, b);
    lemma_field(head, 6, c);
    lemma_field(head, 14, d);
    lemma_field(head, 22, f);
    lemma_field(head, 30, h);
}

proof fn lemma_field(all: Seq<u8>, at: int, field: Seq<u8>)
    requires
        0 <= at,
        at + field.len() <= all.len(),
        all.subrange(at, at + field.len()) =~= field,
    ensures
        le(all, at, field.len()) == le(field, 0, field.len()),
{
    assert(field.subrange(0, field.len() as int) =~= field);
    le_agrees(all, at, field, 0, field.len());
}

proof fn lemma_field_within(all: Seq<u8>, pos: int, part: Seq<u8>, at: int, n: nat)
    requires
        0 <= pos,
        pos + part.len() <= all.len(),
        all.subrange(pos, pos + part.len()) == part,
        0 <= at,
        at + n <= part.len(),
    ensures
        le(all, pos + at, n) == le(part, at, n),
{
    assert(all.subrange(pos + at, pos + at + n) =~= part.subrange(at, at + n));
    le_agrees(all, pos + at, part, at, n);
}

proof fn lemma_flags_survive(flags: u16)
    requires
        !has_marks(flags, 3),
    ensures
        read_flags(flags) == flags,
{
    assert(flags & 3 != 3 && flags & 1 == 1 ==> 1u16 | (flags & !3u16) == flags) by (bit_vector);
    assert(flags & 3 != 3 && flags & 1 != 1 && flags & 2 == 2 ==> 2u16 | (flags & !3u16) == flags)
        by (bit_vector);
    assert(flags & 1 != 1 && flags & 2 != 2 ==> 0u16 | (flags & !3u16) == flags) by (bit_vector);
}

/// Reading an entry's bytes, wherever they stand, gives the entry back.
pub proof fn read_entry_gives_entry_back(b: Seq<u8>, pos: int, idx: int, e: EntryView)
    requires
        survives(e),
        e.parent matches Some(p) ==> p < idx,
        0 <= idx <= u32::MAX,
        0 <= pos,
        pos + entry_bytes(e).len() <= b.len(),
        b.subrange(pos, pos + entry_bytes(e).len()) == entry_bytes(e),
    ensures
        read_entry(b, pos, idx) == Ok::<_, SnapshotError>((e, pos + entry_bytes(e).len())),
{
    broadcast use vstd::utf8::encode_utf8_valid_utf8, vstd::utf8::encode_utf8_decode_utf8;

    let all = entry_bytes(e);
    let head = entry_head(e);
    lemma_entry_head(e);
    assert(b.subrange(pos, pos + head.len()) =~= head) by {
        assert(all.subrange(0, head.len() as int) =~= head);
        assert(b.subrange(pos, pos + head.len()) =~= all.subrange(0, head.len() as int));
    }
    lemma_field_within(b, pos, head, 0, 4);
    lemma_field_within(b, pos, head, 4, 2);
    lemma_field_within(b, pos, head, 6, 8);
    lemma_field_within(b, pos, head, 14, 8);
    lemma_field_within(b, pos, head, 22, 8);
    lemma_field_within(b, pos, head, 30, 4);
    let start = pos + ENTRY_BYTES;
    let end = start + encode_utf8(e.name).len();
    assert(b.subrange(start, end) =~= encode_utf8(e.name)) by {
        assert(all.subrange(head.len() as int, all.len() as int) =~= encode_utf8(e.name));
        assert(b.subrange(start, end) =~= all.subrange(head.len() as int, all.len() as int));
    }
    lemma_flags_survive(e.flags);
    signed64_of_unsigned64(e.modified as int);
}

proof fn lemma_entries_part(g: Seq<EntryView>, k: int, n: int)
    requires
        0 <= k < n,
    ensures
        ({
            let from = entries_bytes(g, k).len() as int;
            let to = from + entry_bytes(g[k]).len();
            &&& to == entries_bytes(g, k + 1).len()
            &&& to <= entries_bytes(g, n).len()
            &&& entries_bytes(g, n).subrange(from, to) == entry_bytes(g[k])
        }),
    decreases n,
{
    let from = entries_bytes(g, k).len() as int;
    let to = from + entry_bytes(g[k]).len();
    if k == n - 1 {
        assert(entries_bytes(g, n).subrange(from, to) =~= entry_bytes(g[k]));
    } else {
        lemma_entries_part(g, k, n - 1);
        assert(entries_bytes(g, n).subrange(from, to) =~= entries_bytes(g, n - 1).subrange(
            from,
            to,
        ));
    }
}

proof fn lemma_read_entries(g: Seq<EntryView>, rest: Seq<u8>, k: int)
    requires
        is_forest(g),
        g.len() <= u32::MAX,
        forall|i: int| 0 <= i < g.len() ==> survives(#[trigger] g[i]),
        0 <= k <= g.len(),
    ensures
        read_entries(
            snapshot_bytes(g) + rest,
            HEADER_BYTES + entries_bytes(g, k).len(),
            g.len() as int,
            g.take(k),
        ) == Ok::<_, SnapshotError>(g),
    decreases g.len() - k,
{
    let b = snapshot_bytes(g) + rest;
    let n = g.len() as int;
    if k == n {
        assert(g.take(k) =~= g);
    } else {
        le_bytes_len(g.len(), 4);
        let e = g[k];
        let from = entries_bytes(g, k).len() as int;
        let pos = HEADER_BYTES + from;
        let len = entry_bytes(e).len() as int;
        lemma_entries_part(g, k, n);
        assert(b.subrange(pos, pos + len) =~= entries_bytes(g, n).subrange(from, from + len));
        assert(survives(g[k]));
        read_entry_gives_entry_back(b, pos, k, e);
        assert(g.take(k).push(e) =~= g.take(k + 1));
        lemma_read_entries(g, rest, k + 1);
    }
}

/// Reading a snapshot gives back the entries that were written, whatever stands behind it.
pub proof fn snapshot_reads_back(g: Seq<EntryView>, rest: Seq<u8>)
    requires
        is_forest(g),
        g.len() <= u32::MAX,
        forall|i: int| 0 <= i < g.len() ==> survives(#[trigger] g[i]),
    ensures
        read_snapshot(snapshot_bytes(g) + rest) == Ok::<_, SnapshotError>(g),
{
    let b = snapshot_bytes(g) + rest;
    le_bytes_len(g.len(), 4);
    reveal_with_fuel(le_range, 5);
    le_bytes_spell(g.len(), 4);
    assert(b.take(8) =~= magic());
    lemma_field(b, 8, le_bytes(g.len(), 4));
    assert(g.take(0) =~= Seq::<EntryView>::empty());
    lemma_read_entries(g, rest, 0);
}

/// An entry is written in 34 bytes and its name: four for the number of its parent, all ones where it
/// has none, two for its marks, eight each for its time of change, its size and its allocated size,
/// and four for the length of the name, each with the lowest byte first.
pub proof fn an_entry_is_written_field_by_field(e: EntryView)
    requires
        name_fits(e),
    ensures
        ({
            let b = entry_bytes(e);
            &&& b.len() == 34 + encode_utf8(e.name).len()
            &&& le(b, 0, 4) == match e.parent {
                Some(p) => p as nat,
                None => 0xffff_ffff,
            }
            &&& le(b, 4, 2) == e.flags
            &&& signed64(le(b, 6, 8)) == e.modified
            &&& le(b, 14, 8) == e.size
            &&& le(b, 22, 8) == e.allocated
            &&& le(b, 30, 4) == encode_utf8(e.name).len()
            &&& b.skip(34) == encode_utf8(e.name)
        }),
{
    let b = entry_bytes(e);
    let head = entry_head(e);
    lemma_entry_head(e);
    assert(b.subrange(0, head.len() as int) =~= head);
    lemma_field_within(b, 0, head, 0, 4);
    lemma_field_within(b, 0, head, 4, 2);
    lemma_field_within(b, 0, head, 6, 8);
    lemma_field_within(b, 0, head, 14, 8);
    lemma_field_within(b, 0, head, 22, 8);
    lemma_field_within(b, 0, head, 30, 4);
    signed64_of_unsigned64(e.modified as int);
    assert(b.skip(34) =~= encode_utf8(e.name));
}

proof fn lemma_cut_entries(g: Seq<EntryView>, cut: int, k: int)
    requires
        is_forest(g),
        g.len() <= u32::MAX,
        forall|i: int| 0 <= i < g.len() ==> survives(#[trigger] g[i]),
        0 <= k <= g.len(),
        HEADER_BYTES + entries_bytes(g, k).len() <= cut < snapshot_bytes(g).len(),
    ensures
        read_entries(
            snapshot_bytes(g).take(cut),
            HEADER_BYTES + entries_bytes(g, k).len(),
            g.len() as int,
            g.take(k),
        ) == Err::<Seq<EntryView>, _>(SnapshotError::UnexpectedEof),
    decreases g.len() - k,
{
    let whole = snapshot_bytes(g);
    let b = whole.take(cut);
    let n = g.len() as int;
    le_bytes_len(g.len(), 4);
    assert(whole.len() == HEADER_BYTES + entries_bytes(g, n).len());
    assert(k < n);
    let e = g[k];
    assert(survives(g[k]));
    let from = entries_bytes(g, k).len() as int;
    let pos = HEADER_BYTES + from;
    let len = entry_bytes(e).len() as int;
    lemma_entries_part(g, k, n);
    assert(whole.subrange(pos, pos + len) =~= entries_bytes(g, n).subrange(from, from + len));
    if pos + ENTRY_BYTES <= cut {
        an_entry_is_written_field_by_field(e);
        lemma_field_within(whole, pos, entry_bytes(e), 30, 4);
        assert(b.subrange(pos + 30, pos + 34) =~= whole.subrange(pos + 30, pos + 34));
        le_agrees(b, pos + 30, whole, pos + 30, 4);
        if pos + len <= cut {
            assert(b.subrange(pos, pos + len) =~= whole.subrange(pos, pos + len));
            read_entry_gives_entry_back(b, pos, k, e);
            assert(g.take(k).push(e) =~= g.take(k + 1));
            lemma_cut_entries(g, cut, k + 1);
        }
    }
}

/// A snapshot that was cut off, wherever it was, is refused because its bytes end too soon.
pub proof fn a_snapshot_cut_off_is_refused(g: Seq<EntryView>, cut: int)
    requires
        is_forest(g),
        g.len() <= u32::MAX,
        forall|i: int| 0 <= i < g.len() ==> survives(#[trigger] g[i]),
        0 <= cut < snapshot_bytes(g).len(),
    ensures
        read_snapshot(snapshot_bytes(g).take(cut)) == Err::<Seq<EntryView>, _>(
            SnapshotError::UnexpectedEof,
        ),
{
    let whole = snapshot_bytes(g);
    let b = whole.take(cut);
    le_bytes_len(g.len(), 4);
    reveal_with_fuel(le_range, 5);
    le_bytes_spell(g.len(), 4);
    if cut >= 8 {
        assert(b.take(8) =~= magic());
    }
    if cut >= HEADER_BYTES {
        lemma_field(b, 8, le_bytes(g.len(), 4));
        assert(g.take(0) =~= Seq::<EntryView>::empty());
        lemma_cut_entries(g, cut, 0);
    }
}

/// What does not begin with the eight letters of a snapshot is none.
pub proof fn other_bytes_are_no_snapshot(b: Seq<u8>, k: int)
    requires
        b.len() >= 8,
        0 <= k < 8,
        b[k] != seq![68u8, 76u8, 83u8, 78u8, 80u8, 48u8, 48u8, 49u8][k],
    ensures
        read_snapshot(b) == Err::<Seq<EntryView>, _>(SnapshotError::InvalidHeader),
{
    if b.take(8) == magic() {
        assert(b.take(8)[k] == magic()[k]);
    }
}

/// An entry that names a parent at or behind its own place is refused.
pub proof fn a_parent_has_to_stand_before(b: Seq<u8>, pos: int, idx: int)
    requires
        0 <= pos,
        pos + 34 + le(b, pos + 30, 4) <= b.len(),
        valid_utf8(b.subrange(pos + 34, pos + 34 + le(b, pos + 30, 4))),
        idx <= le(b, pos, 4) < 0xffff_ffff,
        0 <= idx <= u32::MAX,
    ensures
        read_entry(b, pos, idx) == Err::<(EntryView, int), _>(
            SnapshotError::InvalidParent { entry: idx as u32, parent: le(b, pos, 4) as u32 },
        ),
{
}

/// The first mark tells a directory whatever else is marked, the second a link where the first is not
/// set; without both it is a file.
pub proof fn marks_tell_the_kind(flags: u16)
    ensures
        kind_of_flags(flags) == FileKind::Directory <==> flags % 2 == 1,
        kind_of_flags(flags) == FileKind::Symlink <==> flags % 4 == 2,
        kind_of_flags(flags) == FileKind::File <==> flags % 4 == 0,
{
    assert((flags & 1 == 1) == (flags % 2 == 1) && (flags & 2 == 2) == (flags % 4 >= 2) && (flags % 2 == 1)
        == (flags % 4 == 1 || flags % 4 == 3)) by (bit_vector);
}

} // verus!
