//! Export of a graph as CSV.

use vstd::prelude::*;
use vstd::utf8::{decode_utf8, encode_utf8};

use crate::graph::{capped, is_directory, path_of, subtree_sum, the_first_mark_makes_a_directory,
    total_allocated, total_size, EntryFlags, EntryId, EntryView, FileGraph};
use crate::numbers::{decimal, decimal_int, decimal_int_reads_back, decimal_int_text,
    decimal_reads_back, decimal_text, spelled};
use crate::text::strings_view;

verus! {

/// What goes into an export.
#[derive(Debug, Clone, Copy)]
pub struct CsvExportOptions {
    pub include_directories: bool,
}

impl Default for CsvExportOptions {
    fn default() -> (r: Self)
        ensures
            r.include_directories,
    {
        CsvExportOptions { include_directories: true }
    }
}

/// `csv::Error`, why a record was not written.
#[verifier::external_type_specification]
#[verifier::external_body]
pub struct ExCsvError(csv::Error);

/// Why an export failed.
#[derive(Debug)]
pub enum CsvExportError {
    /// A record was not written.
    Csv(csv::Error),
}

/// Whether a field is put in quotes: it holds a comma, a quote or a line break.
pub open spec fn needs_quotes(field: Seq<char>) -> bool {
    field.contains(',') || field.contains('"') || field.contains('\r') || field.contains('\n')
}

/// The text with every quote doubled.
pub open spec fn quotes_doubled(field: Seq<char>) -> Seq<char>
    decreases field.len(),
{
    if field.len() == 0 {
        field
    } else if field.last() == '"' {
        quotes_doubled(field.drop_last()).push('"').push('"')
    } else {
        quotes_doubled(field.drop_last()).push(field.last())
    }
}

/// A field as it stands in a record.
pub open spec fn csv_field(field: Seq<char>) -> Seq<char> {
    if needs_quotes(field) {
        seq!['"'] + quotes_doubled(field) + seq!['"']
    } else {
        field
    }
}

/// The fields of a record with commas between them.
pub open spec fn csv_fields(fields: Seq<Seq<char>>) -> Seq<char>
    decreases fields.len(),
{
    if fields.len() == 0 {
        Seq::empty()
    } else if fields.len() == 1 {
        csv_field(fields[0])
    } else {
        csv_fields(fields.drop_last()).push(',') + csv_field(fields.last())
    }
}

/// A record: its fields and a line feed.
pub open spec fn csv_record(fields: Seq<Seq<char>>) -> Seq<char> {
    csv_fields(fields).push('\n')
}

/// `csv::Writer` with its defaults, on a vector: `write_record` writes the fields with commas
/// between them and a line feed behind them, in quotes where they hold a comma, a quote or a line
/// break, with quotes doubled, and `into_inner` hands the bytes back. A vector takes every write,
/// and a single record cannot differ in length from one before it, so neither fails.
#[verifier::external_body]
fn write_csv_record(fields: &Vec<String>) -> (r: Result<Vec<u8>, csv::Error>)
    requires
        fields@.len() >= 2,
    ensures
        r is Ok,
        r matches Ok(bytes) ==> bytes@ == encode_utf8(csv_record(strings_view(fields@))),
{
    let mut writer = csv::Writer::from_writer(Vec::new());
    writer.write_record(fields)?;
    writer.into_inner().map_err(|error| csv::Error::from(error.into_error()))
}

/// The names of the columns.
pub open spec fn header_fields() -> Seq<Seq<char>> {
    seq![
        "path"@,
        "name"@,
        "kind"@,
        "size"@,
        "allocated"@,
        "total_size"@,
        "total_allocated"@,
        "modified_unix"@,
    ]
}

/// The fields of entry `i`.
pub open spec fn entry_fields(g: Seq<EntryView>, i: int) -> Seq<Seq<char>> {
    seq![
        path_of(g, i),
        g[i].name,
        if is_directory(g[i].flags) {
            "directory"@
        } else {
            "file"@
        },
        decimal(g[i].size as nat),
        decimal(g[i].allocated as nat),
        decimal(total_size(g, i) as nat),
        decimal(total_allocated(g, i) as nat),
        decimal_int(g[i].modified as int),
    ]
}

/// The bytes of the records of the first `n` entries.
pub open spec fn entry_records(g: Seq<EntryView>, include_directories: bool, n: nat) -> Seq<u8>
    decreases n,
{
    if n == 0 {
        Seq::empty()
    } else {
        entry_records(g, include_directories, (n - 1) as nat) + if include_directories
            || !is_directory(g[n - 1].flags) {
            encode_utf8(csv_record(entry_fields(g, n - 1)))
        } else {
            Seq::empty()
        }
    }
}

/// The bytes of an export: the names of the columns, then a record for every entry, without the
/// directories where they are not asked for.
pub open spec fn csv_bytes(g: Seq<EntryView>, include_directories: bool) -> Seq<u8> {
    encode_utf8(csv_record(header_fields())) + entry_records(g, include_directories, g.len())
}

fn append_record(writer: &mut Vec<u8>, fields: Vec<String>) -> (r: Result<(), CsvExportError>)
    requires
        fields@.len() >= 2,
    ensures
        r is Ok,
        final(writer)@ == old(writer)@ + encode_utf8(csv_record(strings_view(fields@))),
{
    match write_csv_record(&fields) {
        Ok(bytes) => {
            let mut bytes = bytes;
            writer.append(&mut bytes);
            Ok(())
        },
        Err(error) => Err(CsvExportError::Csv(error)),
    }
}

fn entry_record(graph: &FileGraph, id: EntryId) -> (r: Vec<String>)
    requires
        graph.wf(),
        id.0 < graph@.len(),
    ensures
        strings_view(r@) == entry_fields(graph@, id.0 as int),
{
    let mut fields: Vec<String> = Vec::new();
    match (graph.entry(id), graph.stats(id), graph.name(id), graph.reconstruct_path(id)) {
        (Some(entry), Some(stats), Some(name), Some(path)) => {
            fields.push(path);
            fields.push(name.to_owned());
            fields.push(
                if entry.flags.contains(EntryFlags::DIRECTORY) {
                    "directory".to_owned()
                } else {
                    "file".to_owned()
                },
            );
            fields.push(decimal_text(stats.own_size.bytes()));
            fields.push(decimal_text(stats.own_allocated.bytes()));
            fields.push(decimal_text(stats.total_size.bytes()));
            fields.push(decimal_text(stats.total_allocated.bytes()));
            fields.push(decimal_int_text(entry.modified_unix));
        },
        _ => {},
    }
    assert(strings_view(fields@) =~= entry_fields(graph@, id.0 as int));
    fields
}

/// Writes a graph as CSV.
pub fn export_csv(graph: &FileGraph, writer: &mut Vec<u8>, options: CsvExportOptions) -> (r: Result<
    (),
    CsvExportError,
>)
    requires
        graph.wf(),
    ensures
        r is Ok,
        final(writer)@ == old(writer)@ + csv_bytes(graph@, options.include_directories),
{
    let ghost before = writer@;
    let ghost g = graph@;
    proof {
        graph.lemma_wf();
    }
    let mut header: Vec<String> = Vec::new();
    header.push("path".to_owned());
    header.push("name".to_owned());
    header.push("kind".to_owned());
    header.push("size".to_owned());
    header.push("allocated".to_owned());
    header.push("total_size".to_owned());
    header.push("total_allocated".to_owned());
    header.push("modified_unix".to_owned());
    assert(strings_view(header@) =~= header_fields());
    append_record(writer, header)?;
    let ghost head = encode_utf8(csv_record(header_fields()));
    let n = graph.len();
    let mut i: usize = 0;
    assert(writer@ =~= before + head + entry_records(g, options.include_directories, 0));
    while i < n
        invariant
            graph.wf(),
            g == graph@,
            n == g.len(),
            n <= u32::MAX + 1,
            i <= n,
            writer@ == before + head + entry_records(g, options.include_directories, i as nat),
        decreases n - i,
    {
        let id = EntryId(i as u32);
        let directory = match graph.entry(id) {
            Some(entry) => entry.flags.contains(EntryFlags::DIRECTORY),
            None => false,
        };
        let ghost written = writer@;
        if options.include_directories || !directory {
            let fields = entry_record(graph, id);
            assert(strings_view(fields@).len() == fields@.len());
            append_record(writer, fields)?;
        }
        i += 1;
        assert(writer@ =~= before + head + entry_records(g, options.include_directories, i as nat));
    }
    assert(writer@ =~= before + csv_bytes(g, options.include_directories));
    Ok(())
}

// ---------------------------------------------------------------------------------------------
// Reading back
// ---------------------------------------------------------------------------------------------

/// Where in a field a reader of CSV stands.
pub enum CsvPlace {
    /// Before its first character.
    Start,
    /// In a field without quotes around it.
    Plain,
    /// Between the quotes around it.
    Quoted,
    /// Behind a quote that ends it, unless another follows.
    Closed,
}

/// What a reader of CSV has read: whole records, the fields of the next one, and a part of a field.
pub struct CsvReading {
    pub records: Seq<Seq<Seq<char>>>,
    pub fields: Seq<Seq<char>>,
    pub field: Seq<char>,
    pub place: CsvPlace,
}

impl CsvReading {
    /// A reader at the start of a record.
    pub open spec fn at_record(records: Seq<Seq<Seq<char>>>) -> CsvReading {
        CsvReading {
            records,
            fields: Seq::empty(),
            field: Seq::empty(),
            place: CsvPlace::Start,
        }
    }

    /// With one more character of the field, and standing there.
    pub open spec fn with(self, c: char, place: CsvPlace) -> CsvReading {
        CsvReading { field: self.field.push(c), place, ..self }
    }

    /// What is read once another character is: a comma ends a field, a line feed a record, and a
    /// quote does neither but begins or ends what is quoted, in which two quotes stand for one.
    pub open spec fn step(self, c: char) -> CsvReading {
        match self.place {
            CsvPlace::Quoted => if c == '"' {
                CsvReading { place: CsvPlace::Closed, ..self }
            } else {
                self.with(c, CsvPlace::Quoted)
            },
            _ => if c == ',' {
                CsvReading {
                    fields: self.fields.push(self.field),
                    field: Seq::empty(),
                    place: CsvPlace::Start,
                    ..self
                }
            } else if c == '\n' {
                CsvReading::at_record(self.records.push(self.fields.push(self.field)))
            } else if c == '"' && self.place is Start {
                CsvReading { place: CsvPlace::Quoted, ..self }
            } else if c == '"' && self.place is Closed {
                self.with(c, CsvPlace::Quoted)
            } else {
                self.with(c, CsvPlace::Plain)
            },
        }
    }

    /// What is read once another text is.
    pub open spec fn read(self, text: Seq<char>) -> CsvReading
        decreases text.len(),
    {
        if text.len() == 0 {
            self
        } else {
            self.read(text.drop_last()).step(text.last())
        }
    }
}

/// The records of a CSV text.
pub open spec fn csv_records(text: Seq<char>) -> Seq<Seq<Seq<char>>> {
    CsvReading::at_record(Seq::empty()).read(text).records
}

proof fn lemma_read_both(reading: CsvReading, a: Seq<char>, b: Seq<char>)
    ensures
        reading.read(a + b) == reading.read(a).read(b),
    decreases b.len(),
{
    if b.len() == 0 {
        assert(a + b =~= a);
    } else {
        lemma_read_both(reading, a, b.drop_last());
        assert((a + b).drop_last() =~= a + b.drop_last());
        assert((a + b).last() == b.last());
    }
}

proof fn lemma_read_one(reading: CsvReading, c: char)
    ensures
        reading.read(seq![c]) == reading.step(c),
{
    assert(seq![c].drop_last() =~= Seq::<char>::empty());
    assert(reading.read(seq![c].drop_last()) == reading);
    assert(seq![c].last() == c);
}

proof fn lemma_read_quoted(reading: CsvReading, field: Seq<char>)
    requires
        reading.place is Quoted,
    ensures
        reading.read(quotes_doubled(field)) == (CsvReading {
            field: reading.field + field,
            ..reading
        }),
    decreases field.len(),
{
    if field.len() == 0 {
        assert(reading.field + field =~= reading.field);
    } else {
        let fewer = field.drop_last();
        let c = field.last();
        lemma_read_quoted(reading, fewer);
        assert((reading.field + fewer).push(c) =~= reading.field + field);
        let text = quotes_doubled(fewer);
        let before = reading.read(text);
        assert(text.push(c).drop_last() =~= text);
        assert(reading.read(text.push(c)) == before.step(c));
        if c == '"' {
            assert(text.push(c).push(c).drop_last() =~= text.push(c));
            assert(reading.read(text.push(c).push(c)) == before.step(c).step(c));
        }
    }
}

proof fn lemma_read_plain(reading: CsvReading, field: Seq<char>)
    requires
        reading.place is Start,
        reading.field.len() == 0,
        !needs_quotes(field),
    ensures
        reading.read(field) == (CsvReading {
            field,
            place: if field.len() == 0 {
                CsvPlace::Start
            } else {
                CsvPlace::Plain
            },
            ..reading
        }),
    decreases field.len(),
{
    if field.len() == 0 {
        assert(field =~= reading.field);
    } else {
        let fewer = field.drop_last();
        assert forall|c: char| fewer.contains(c) implies field.contains(c) by {
            let i = choose|i: int| 0 <= i < fewer.len() && fewer[i] == c;
            assert(field[i] == c);
        }
        lemma_read_plain(reading, fewer);
        assert(field.contains(field.last()));
        assert(fewer.push(field.last()) =~= field);
    }
}

/// Once a field is read, it is there, and whatever stands behind it ends it.
proof fn lemma_read_field(reading: CsvReading, field: Seq<char>)
    requires
        reading.place is Start,
        reading.field.len() == 0,
    ensures
        ({
            let after = reading.read(csv_field(field));
            &&& after.records == reading.records
            &&& after.fields == reading.fields
            &&& after.field == field
            &&& !(after.place is Quoted)
        }),
{
    if needs_quotes(field) {
        let quote = seq!['"'];
        let open = reading.step('"');
        lemma_read_one(reading, '"');
        lemma_read_both(reading, quote, quotes_doubled(field));
        lemma_read_quoted(open, field);
        lemma_read_both(reading, quote + quotes_doubled(field), quote);
        lemma_read_one(open.read(quotes_doubled(field)), '"');
        assert(reading.field + field =~= field);
    } else {
        lemma_read_plain(reading, field);
    }
}

proof fn lemma_read_fields(records: Seq<Seq<Seq<char>>>, fields: Seq<Seq<char>>)
    requires
        fields.len() > 0,
    ensures
        ({
            let after = CsvReading::at_record(records).read(csv_fields(fields));
            &&& after.records == records
            &&& after.fields == fields.drop_last()
            &&& after.field == fields.last()
            &&& !(after.place is Quoted)
        }),
    decreases fields.len(),
{
    let start = CsvReading::at_record(records);
    if fields.len() == 1 {
        lemma_read_field(start, fields[0]);
        assert(fields.drop_last() =~= Seq::<Seq<char>>::empty());
    } else {
        let fewer = fields.drop_last();
        lemma_read_fields(records, fewer);
        let text = csv_fields(fewer);
        assert(text.push(',').drop_last() =~= text);
        let next = start.read(text.push(','));
        assert(next == start.read(text).step(','));
        assert(fewer.drop_last().push(fewer.last()) =~= fewer);
        lemma_read_both(start, text.push(','), csv_field(fields.last()));
        lemma_read_field(next, fields.last());
    }
}

proof fn lemma_read_record(records: Seq<Seq<Seq<char>>>, fields: Seq<Seq<char>>)
    requires
        fields.len() > 0,
    ensures
        CsvReading::at_record(records).read(csv_record(fields)) == CsvReading::at_record(
            records.push(fields),
        ),
{
    lemma_read_fields(records, fields);
    assert(csv_record(fields).drop_last() =~= csv_fields(fields));
    assert(fields.drop_last().push(fields.last()) =~= fields);
}

/// The bytes of a record read back as its fields, whatever characters they hold.
pub proof fn a_record_reads_back(fields: Seq<Seq<char>>)
    requires
        fields.len() > 0,
    ensures
        csv_records(decode_utf8(encode_utf8(csv_record(fields)))) == seq![fields],
{
    vstd::utf8::encode_utf8_decode_utf8(csv_record(fields));
    lemma_read_record(Seq::empty(), fields);
    assert(Seq::<Seq<Seq<char>>>::empty().push(fields) =~= seq![fields]);
}

/// The records of the first `n` entries.
pub open spec fn exported_records(g: Seq<EntryView>, include_directories: bool, n: nat) -> Seq<
    Seq<Seq<char>>,
>
    decreases n,
{
    if n == 0 {
        Seq::empty()
    } else if include_directories || !is_directory(g[n - 1].flags) {
        exported_records(g, include_directories, (n - 1) as nat).push(entry_fields(g, n - 1))
    } else {
        exported_records(g, include_directories, (n - 1) as nat)
    }
}

proof fn lemma_encode_both(a: Seq<char>, b: Seq<char>)
    ensures
        encode_utf8(a + b) == encode_utf8(a) + encode_utf8(b),
    decreases a.len(),
{
    if a.len() == 0 {
        assert(a + b =~= b);
        assert(encode_utf8(a) + encode_utf8(b) =~= encode_utf8(b));
    } else {
        lemma_encode_both(a.drop_first(), b);
        assert((a + b).drop_first() =~= a.drop_first() + b);
        assert(encode_utf8(a + b) =~= encode_utf8(a) + encode_utf8(b));
    }
}

proof fn lemma_read_entries(g: Seq<EntryView>, include_directories: bool, n: nat) -> (text: Seq<char>)
    requires
        n <= g.len(),
    ensures
        encode_utf8(text) == encode_utf8(csv_record(header_fields())) + entry_records(
            g,
            include_directories,
            n,
        ),
        CsvReading::at_record(Seq::empty()).read(text) == CsvReading::at_record(
            seq![header_fields()] + exported_records(g, include_directories, n),
        ),
    decreases n,
{
    let start = CsvReading::at_record(Seq::empty());
    let head = csv_record(header_fields());
    if n == 0 {
        lemma_read_record(Seq::empty(), header_fields());
        assert(Seq::<Seq<Seq<char>>>::empty().push(header_fields()) =~= seq![header_fields()]
            + exported_records(g, include_directories, n));
        assert(encode_utf8(head) + entry_records(g, include_directories, n) =~= encode_utf8(head));
        head
    } else {
        let before = lemma_read_entries(g, include_directories, (n - 1) as nat);
        let read = seq![header_fields()] + exported_records(g, include_directories, (n - 1) as nat);
        if include_directories || !is_directory(g[n - 1].flags) {
            let fields = entry_fields(g, n - 1);
            let record = csv_record(fields);
            lemma_read_record(read, fields);
            lemma_read_both(start, before, record);
            lemma_encode_both(before, record);
            assert(read.push(fields) =~= seq![header_fields()] + exported_records(
                g,
                include_directories,
                n,
            ));
            assert(encode_utf8(before + record) =~= encode_utf8(head) + entry_records(
                g,
                include_directories,
                n,
            ));
            before + record
        } else {
            assert(entry_records(g, include_directories, n) =~= entry_records(
                g,
                include_directories,
                (n - 1) as nat,
            ));
            before
        }
    }
}

/// An export reads back as the names of the columns and the fields of every entry in it, whatever
/// characters their names hold.
pub proof fn an_export_reads_back(g: Seq<EntryView>, include_directories: bool)
    ensures
        csv_records(decode_utf8(csv_bytes(g, include_directories))) == seq![header_fields()]
            + exported_records(g, include_directories, g.len()),
{
    let text = lemma_read_entries(g, include_directories, g.len());
    vstd::utf8::encode_utf8_decode_utf8(text);
}

/// The record of an entry says where it lies, what it is called and whether it is a directory; its
/// numbers read back as its own size and room, the sums over all that lies below it as far as they
/// can be counted, and the time of its last change. Each stands in the column of that name.
pub proof fn a_record_tells_of_its_entry(g: Seq<EntryView>, i: int)
    requires
        0 <= i < g.len(),
    ensures
        ({
            let fields = entry_fields(g, i);
            &&& fields.len() == header_fields().len()
            &&& fields.len() == 8
            &&& header_fields()[0] == "path"@ && fields[0] == path_of(g, i)
            &&& header_fields()[1] == "name"@ && fields[1] == g[i].name
            &&& header_fields()[2] == "kind"@ && fields[2] == if g[i].flags % 2 == 1 {
                "directory"@
            } else {
                "file"@
            }
            &&& header_fields()[3] == "size"@ && spelled(fields[3], false) == Some(
                g[i].size as int,
            )
            &&& header_fields()[4] == "allocated"@ && spelled(fields[4], false) == Some(
                g[i].allocated as int,
            )
            &&& header_fields()[5] == "total_size"@ && spelled(fields[5], false) == Some(
                capped(
                    subtree_sum(g, i, |j: int| g[j].size as nat, g.len() as int),
                    u64::MAX as nat,
                ) as int,
            )
            &&& header_fields()[6] == "total_allocated"@ && spelled(fields[6], false) == Some(
                capped(
                    subtree_sum(g, i, |j: int| g[j].allocated as nat, g.len() as int),
                    u64::MAX as nat,
                ) as int,
            )
            &&& header_fields()[7] == "modified_unix"@ && spelled(fields[7], true) == Some(
                g[i].modified as int,
            )
        }),
{
    the_first_mark_makes_a_directory(g[i].flags);
    decimal_reads_back(g[i].size as nat);
    decimal_reads_back(g[i].allocated as nat);
    decimal_reads_back(total_size(g, i) as nat);
    decimal_reads_back(total_allocated(g, i) as nat);
    decimal_int_reads_back(g[i].modified as int);
}

/// How many of the first `n` entries go into an export.
pub open spec fn exported_before(g: Seq<EntryView>, include_directories: bool, n: nat) -> nat
    decreases n,
{
    if n == 0 {
        0
    } else {
        exported_before(g, include_directories, (n - 1) as nat) + if include_directories
            || g[n - 1].flags % 2 == 0 {
            1nat
        } else {
            0
        }
    }
}

proof fn lemma_exported(g: Seq<EntryView>, include_directories: bool, n: nat, i: int)
    requires
        0 <= i < n <= g.len(),
        include_directories || g[i].flags % 2 == 0,
    ensures
        ({
            let records = exported_records(g, include_directories, n);
            let k = exported_before(g, include_directories, i as nat) as int;
            &&& records.len() == exported_before(g, include_directories, n)
            &&& k < records.len()
            &&& records[k] == entry_fields(g, i)
        }),
    decreases n,
{
    lemma_exported_len(g, include_directories, n);
    lemma_exported_len(g, include_directories, (n - 1) as nat);
    the_first_mark_makes_a_directory(g[n - 1].flags);
    if i < n - 1 {
        lemma_exported(g, include_directories, (n - 1) as nat, i);
    }
}

proof fn lemma_exported_len(g: Seq<EntryView>, include_directories: bool, n: nat)
    requires
        n <= g.len(),
    ensures
        exported_records(g, include_directories, n).len() == exported_before(
            g,
            include_directories,
            n,
        ),
    decreases n,
{
    if n > 0 {
        lemma_exported_len(g, include_directories, (n - 1) as nat);
        the_first_mark_makes_a_directory(g[n - 1].flags);
    }
}

/// An export has a line for the names of the columns and one for every entry, in the order of the
/// entries; directories have one only where they are asked for.
pub proof fn every_entry_is_exported_once(g: Seq<EntryView>, include_directories: bool)
    ensures
        ({
            let records = csv_records(decode_utf8(csv_bytes(g, include_directories)));
            &&& records.len() == 1 + exported_before(g, include_directories, g.len())
            &&& records[0] == header_fields()
            &&& forall|i: int|
                0 <= i < g.len() && (include_directories || (#[trigger] g[i]).flags % 2 == 0)
                    ==> records[1int + exported_before(g, include_directories, i as nat)]
                    == entry_fields(g, i) && exported_before(g, include_directories, i as nat)
                    < exported_before(g, include_directories, g.len())
        }),
{
    an_export_reads_back(g, include_directories);
    lemma_exported_len(g, include_directories, g.len());
    let records = csv_records(decode_utf8(csv_bytes(g, include_directories)));
    assert forall|i: int|
        0 <= i < g.len() && (include_directories || (#[trigger] g[i]).flags % 2 == 0) implies records[1int
        + exported_before(g, include_directories, i as nat)] == entry_fields(g, i)
        && exported_before(g, include_directories, i as nat) < exported_before(
        g,
        include_directories,
        g.len(),
    ) by {
        lemma_exported(g, include_directories, g.len(), i);
    }
}

} // verus!
