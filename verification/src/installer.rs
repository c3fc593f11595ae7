//! Installation: the search path of the machine, and what is copied where.

use vstd::prelude::*;

use crate::numbers::{decimal, push_decimal};
use crate::scanner::to_wide;
use crate::text::{chars_of, eq_ignore_ascii_case, first_place, is_separator, is_separator_spec,
    lemma_first_place, lemma_no_zero_unit, lower_all, push_text, split, split_by, starts_with_spec, string_of,
    strings_view, trim, trim_end_by, trim_end_separators, trim_separators, trim_spec, utf16_lossy,
    utf16_reads_back, utf16_units};
use crate::volume::{first_nul, lemma_nul_behind, trim_nul_utf16};
use crate::winpath::{behind_prefix, file_name_spec, is_bare_server, is_plain_name, join, join_path,
    join_then_split, parent_spec, path_body, prefix_len, tidied};

verus! {

/// The path without white space around it and without separators at its end.
pub open spec fn trimmed_path(path: Seq<char>) -> Seq<char> {
    trim_separators(trim_spec(path))
}

/// The path without white space around it and without separators at its end.
#[must_use]
pub fn trim_trailing_separators(path: &str) -> (r: String)
    ensures
        r@ == trimmed_path(path@),
{
    trim_end_separators(&trim(path))
}

/// Whether a part of a search path is this entry.
pub open spec fn is_entry(part: Seq<char>, entry: Seq<char>) -> bool {
    trimmed_path(part).len() > 0 && lower_all(trimmed_path(part)) == lower_all(trimmed_path(entry))
}

/// Whether a search path holds an entry, whatever the case of ASCII letters.
pub open spec fn holds_entry(path_value: Seq<char>, entry: Seq<char>) -> bool {
    exists|k: int|
        0 <= k < split_by(path_value, ';').len() && is_entry(
            #[trigger] split_by(path_value, ';')[k],
            entry,
        )
}

/// Whether a search path holds an entry, whatever the case of ASCII letters.
#[must_use]
pub fn path_value_contains(path_value: &str, entry: &str) -> (r: bool)
    ensures
        r == holds_entry(path_value@, entry@),
{
    let expected = trim_trailing_separators(entry);
    let parts = split(path_value, ';');
    let ghost texts = split_by(path_value@, ';');
    let mut k: usize = 0;
    while k < parts.len()
        invariant
            k <= parts@.len(),
            strings_view(parts@) == texts,
            texts == split_by(path_value@, ';'),
            expected@ == trimmed_path(entry@),
            forall|j: int| 0 <= j < k ==> !is_entry(#[trigger] texts[j], entry@),
        decreases parts@.len() - k,
    {
        assert(texts[k as int] == parts@[k as int]@);
        let part = trim_trailing_separators(&parts[k]);
        if chars_of(&part).len() > 0 && eq_ignore_ascii_case(&part, &expected) {
            assert(is_entry(split_by(path_value@, ';')[k as int], entry@));
            return true;
        }
        k += 1;
    }
    assert(texts.len() == parts@.len());
    false
}

/// A search path with an entry behind what it holds.
pub open spec fn appended(path_value: Seq<char>, entry: Seq<char>) -> Seq<char> {
    let current = trim_end_by(path_value, |c: char| c == ';');
    if current.len() == 0 {
        entry
    } else {
        current.push(';') + entry
    }
}

/// A search path with an entry behind what it holds.
#[must_use]
pub fn append_path_value(path_value: &str, entry: &str) -> (r: String)
    ensures
        r@ == appended(path_value@, entry@),
{
    let v = chars_of(path_value);
    let ghost semicolon = |c: char| c == ';';
    let mut end: usize = v.len();
    assert(v@.take(v@.len() as int) =~= v@);
    while end > 0 && v[end - 1] == ';'
        invariant
            end <= v@.len(),
            semicolon == (|c: char| c == ';'),
            trim_end_by(v@.take(end as int), semicolon) == trim_end_by(v@, semicolon),
        decreases end,
    {
        assert(v@.take(end as int).drop_last() =~= v@.take(end - 1));
        end -= 1;
    }
    assert(v@.subrange(0, end as int) =~= v@.take(end as int));
    if end == 0 {
        return entry.to_owned();
    }
    let mut r = string_of(&v, 0, end);
    r.push(';');
    push_text(&mut r, entry);
    r
}

/// The search path that the machine gets, nothing where it holds the directory already.
#[must_use]
pub fn path_with_install_dir(current: &str, install_dir: &str) -> (r: Option<String>)
    ensures
        r is Some == !holds_entry(current@, trimmed_path(install_dir@)),
        r matches Some(updated) ==> updated@ == appended(current@, trimmed_path(install_dir@)),
{
    let install_path = normalized_path_text(install_dir);
    if path_value_contains(current, &install_path) {
        return None;
    }
    Some(append_path_value(current, &install_path))
}

/// A path as it is put into a search path.
#[must_use]
pub fn normalized_path_text(path: &str) -> (r: String)
    ensures
        r@ == trimmed_path(path@),
{
    trim_trailing_separators(path)
}

/// What stands on both sides of a mark is split apart, each side by itself.
proof fn lemma_split_joined(head: Seq<char>, tail: Seq<char>, c: char)
    ensures
        split_by(head.push(c) + tail, c) == split_by(head, c) + split_by(tail, c),
    decreases head.len(),
{
    let whole = head.push(c) + tail;
    let end = first_place(whole, c);
    lemma_first_place(whole, c);
    lemma_first_place(head, c);
    assert(whole[head.len() as int] == c);
    assert(end <= head.len()) by {
        if end > head.len() {
            assert(whole[head.len() as int] != c);
        }
    }
    let rest = whole.skip(end + 1);
    if end == head.len() {
        assert(rest =~= tail);
        assert(whole.take(end) =~= head);
        assert forall|i: int| 0 <= i < head.len() implies #[trigger] head[i] != c by {
            assert(whole[i] != c);
        }
        lemma_split_whole(head, c);
    } else {
        let behind = head.skip(end + 1);
        assert(rest =~= behind.push(c) + tail);
        lemma_split_joined(behind, tail, c);
        assert(head[end] == c) by {
            assert(whole[end] == c);
        }
        assert(first_place(head, c) == end) by {
            if first_place(head, c) < end {
                assert(head[first_place(head, c)] == whole[first_place(head, c)]);
            } else if first_place(head, c) > end {
                assert(head[end] != c);
            }
        }
        assert(whole.take(end) =~= head.take(end));
        assert(seq![head.take(end)] + split_by(behind, c) + split_by(tail, c) =~= seq![
            head.take(end),
        ] + (split_by(behind, c) + split_by(tail, c)));
    }
}

proof fn lemma_split_whole(entry: Seq<char>, c: char)
    requires
        forall|i: int| 0 <= i < entry.len() ==> #[trigger] entry[i] != c,
    ensures
        split_by(entry, c) == seq![entry],
{
    crate::text::lemma_first_place(entry, c);
}

/// A search path holds what was put into it.
pub proof fn an_appended_entry_is_held(path_value: Seq<char>, entry: Seq<char>)
    requires
        trimmed_path(entry).len() > 0,
        !entry.contains(';'),
    ensures
        holds_entry(appended(path_value, entry), entry),
{
    let whole = appended(path_value, entry);
    let current = trim_end_by(path_value, |c: char| c == ';');
    assert forall|i: int| 0 <= i < entry.len() implies #[trigger] entry[i] != ';' by {
        if entry[i] == ';' {
            assert(entry.contains(entry[i]));
        }
    }
    lemma_split_whole(entry, ';');
    if current.len() > 0 {
        lemma_split_joined(current, entry, ';');
    }
    let parts = split_by(whole, ';');
    assert(is_entry(parts[parts.len() - 1], entry));
}

/// What a search path holds does not stand in the marks at its end.
proof fn lemma_held_before_the_end(path_value: Seq<char>, entry: Seq<char>)
    requires
        holds_entry(path_value, entry),
    ensures
        holds_entry(trim_end_by(path_value, |c: char| c == ';'), entry),
        trim_end_by(path_value, |c: char| c == ';').len() > 0,
    decreases path_value.len(),
{
    let parts = split_by(path_value, ';');
    let k = choose|k: int| 0 <= k < parts.len() && is_entry(#[trigger] parts[k], entry);
    let nothing = Seq::<char>::empty();
    assert(!is_entry(nothing, entry)) by {
        assert(trim_spec(nothing).len() == 0);
    }
    lemma_split_whole(nothing, ';');
    if path_value.len() == 0 {
        assert(path_value =~= nothing);
    } else if path_value.last() == ';' {
        let shorter = path_value.drop_last();
        assert(path_value =~= shorter.push(';') + nothing);
        lemma_split_joined(shorter, nothing, ';');
        let fewer = split_by(shorter, ';');
        assert(k < fewer.len());
        assert(is_entry(fewer[k], entry));
        lemma_held_before_the_end(shorter, entry);
    }
}

/// A search path still holds what it held once something is put behind it.
pub proof fn held_entries_stay_held(path_value: Seq<char>, entry: Seq<char>, other: Seq<char>)
    requires
        holds_entry(path_value, other),
    ensures
        holds_entry(appended(path_value, entry), other),
{
    let current = trim_end_by(path_value, |c: char| c == ';');
    lemma_held_before_the_end(path_value, other);
    lemma_split_joined(current, entry, ';');
    let parts = split_by(current, ';');
    let k = choose|k: int| 0 <= k < parts.len() && is_entry(#[trigger] parts[k], other);
    assert(is_entry(split_by(appended(path_value, entry), ';')[k], other));
}

// ---------------------------------------------------------------------------------------------
// What is copied where
// ---------------------------------------------------------------------------------------------

/// Where the program is installed where nothing else was asked for.
#[must_use]
pub fn default_install_dir(program_files: Option<&str>) -> (r: String)
    ensures
        r@ == join_path(
            match program_files {
                Some(dir) => dir@,
                None => "C:\\Program Files"@,
            },
            "DiskLoom"@,
        ),
{
    match program_files {
        Some(dir) => join(dir, "DiskLoom"),
        None => join("C:\\Program Files", "DiskLoom"),
    }
}

/// Where the shortcuts of all users stand.
#[must_use]
pub fn start_menu_dir(program_data: Option<&str>) -> (r: String)
    ensures
        r@ == join_path(
            match program_data {
                Some(dir) => dir@,
                None => "C:\\ProgramData"@,
            },
            "Microsoft\\Windows\\Start Menu\\Programs"@,
        ),
{
    match program_data {
        Some(dir) => join(dir, "Microsoft\\Windows\\Start Menu\\Programs"),
        None => join("C:\\ProgramData", "Microsoft\\Windows\\Start Menu\\Programs"),
    }
}

/// A file to copy.
#[derive(Debug)]
pub struct CopyStep {
    pub source: String,
    pub destination: String,
    /// Whether the installation fails without the file.
    pub required: bool,
}

/// A file to copy.
pub struct CopyView {
    pub source: Seq<char>,
    pub destination: Seq<char>,
    pub required: bool,
}

/// What the steps do.
pub open spec fn steps_view(steps: Seq<CopyStep>) -> Seq<CopyView> {
    steps.map_values(
        |step: CopyStep|
            CopyView {
                source: step.source@,
                destination: step.destination@,
                required: step.required,
            },
    )
}

/// The copy of the file with this name.
pub open spec fn copy_of(source: Seq<char>, install: Seq<char>, name: Seq<char>, required: bool) -> CopyView {
    CopyView { source: join_path(source, name), destination: join_path(install, name), required }
}

fn copy_step(source: &str, install: &str, name: &str, required: bool) -> (r: CopyStep)
    ensures
        r.source@ == join_path(source@, name@),
        r.destination@ == join_path(install@, name@),
        r.required == required,
{
    CopyStep { source: join(source, name), destination: join(install, name), required }
}

/// The files to copy: the two programs, and what comes with them where it is there.
#[must_use]
pub fn install_steps(source_dir: &str, install_dir: &str) -> (r: Vec<CopyStep>)
    ensures
        steps_view(r@) == seq![
            copy_of(source_dir@, install_dir@, "diskloom.exe"@, true),
            copy_of(source_dir@, install_dir@, "dlm.exe"@, true),
            copy_of(source_dir@, install_dir@, "README.md"@, false),
            copy_of(source_dir@, install_dir@, "LICENSE-MIT"@, false),
            copy_of(source_dir@, install_dir@, "LICENSE-APACHE"@, false),
        ],
{
    let mut r: Vec<CopyStep> = Vec::new();
    r.push(copy_step(source_dir, install_dir, "diskloom.exe", true));
    r.push(copy_step(source_dir, install_dir, "dlm.exe", true));
    r.push(copy_step(source_dir, install_dir, "README.md", false));
    r.push(copy_step(source_dir, install_dir, "LICENSE-MIT", false));
    r.push(copy_step(source_dir, install_dir, "LICENSE-APACHE", false));
    assert(steps_view(r@) =~= seq![
        copy_of(source_dir@, install_dir@, "diskloom.exe"@, true),
        copy_of(source_dir@, install_dir@, "dlm.exe"@, true),
        copy_of(source_dir@, install_dir@, "README.md"@, false),
        copy_of(source_dir@, install_dir@, "LICENSE-MIT"@, false),
        copy_of(source_dir@, install_dir@, "LICENSE-APACHE"@, false),
    ]);
    r
}

/// Whether a path is a directory or lies below it; both are full paths.
pub open spec fn lies_below(path: Seq<char>, dir: Seq<char>) -> bool {
    let holder = trim_separators(dir);
    &&& starts_with_spec(path, holder)
    &&& path.len() == holder.len() || is_separator_spec(path[holder.len() as int])
}

/// Whether earlier documents may be removed: only below the directory of the installation.
#[must_use]
pub fn may_remove_docs(docs: &str, install_dir: &str) -> (r: bool)
    ensures
        r == lies_below(docs@, install_dir@),
{
    let holder = trim_end_separators(install_dir);
    if !crate::text::starts_with(docs, &holder) {
        return false;
    }
    let path = chars_of(docs);
    let len = chars_of(&holder).len();
    path.len() == len || is_separator(path[len])
}

// ---------------------------------------------------------------------------------------------
// The search path in the registry
// ---------------------------------------------------------------------------------------------

/// The system's code for success.
pub const ERROR_SUCCESS: u32 = 0;

/// The system's code for a value that is not there.
pub const ERROR_FILE_NOT_FOUND: u32 = 2;

/// A failure that the system gave a code for.
pub open spec fn failure_with_code(what: Seq<char>, code: u32) -> Seq<char> {
    what + ": Windows error "@ + decimal(code as nat)
}

fn failure_text(what: &str, code: u32) -> (r: String)
    ensures
        r@ == failure_with_code(what@, code),
{
    let mut r = what.to_owned();
    push_text(&mut r, ": Windows error ");
    push_decimal(&mut r, code as u128);
    r
}

/// How many code units there must be room for to read the search path, by the system's answer to how
/// many bytes it takes: none where it is not there, or is empty.
pub fn machine_path_units(status: u32, byte_len: u32) -> (r: Result<Option<usize>, String>)
    ensures
        match r {
            Ok(None) => status == ERROR_FILE_NOT_FOUND || (status == ERROR_SUCCESS && byte_len == 0),
            Ok(Some(units)) => status == ERROR_SUCCESS && byte_len > 0 && units == (byte_len + 1) / 2,
            Err(message) => {
                &&& status != ERROR_SUCCESS
                &&& status != ERROR_FILE_NOT_FOUND
                &&& message@ == failure_with_code("failed to read machine PATH size"@, status)
            },
        },
{
    if status == ERROR_FILE_NOT_FOUND {
        return Ok(None);
    }
    if status != ERROR_SUCCESS {
        return Err(failure_text("failed to read machine PATH size", status));
    }
    if byte_len == 0 {
        return Ok(None);
    }
    Ok(Some((byte_len / 2 + byte_len % 2) as usize))
}

/// The search path that was read: what stands before the first zero.
pub fn machine_path_text(status: u32, buffer: &[u16]) -> (r: Result<String, String>)
    ensures
        match r {
            Ok(text) => status == ERROR_SUCCESS && text@ == utf16_lossy(
                buffer@.take(first_nul(buffer@)),
            ),
            Err(message) => status != ERROR_SUCCESS && message@ == failure_with_code(
                "failed to read machine PATH"@,
                status,
            ),
        },
{
    if status != ERROR_SUCCESS {
        return Err(failure_text("failed to read machine PATH", status));
    }
    Ok(trim_nul_utf16(buffer))
}

/// What is written as the search path, and how many bytes that is; it is too large where the system
/// could not be told how many.
pub fn machine_path_data(path_value: &str) -> (r: Result<(Vec<u16>, u32), String>)
    ensures
        ({
            let units = utf16_units(path_value@).push(0);
            match r {
                Ok(data) => data.0@ == units && data.1 == units.len() * 2,
                Err(message) => units.len() * 2 > u32::MAX && message@
                    == "machine PATH is too large to write"@,
            }
        }),
{
    let units = to_wide(path_value);
    if units.len() > 0x7fff_ffff {
        return Err("machine PATH is too large to write".to_owned());
    }
    let bytes = units.len() as u32 * 2;
    Ok((units, bytes))
}

/// What is said where the search path could not be written.
pub fn machine_path_written(status: u32) -> (r: Result<(), String>)
    ensures
        match r {
            Ok(_) => status == ERROR_SUCCESS,
            Err(message) => status != ERROR_SUCCESS && message@ == failure_with_code(
                "failed to write machine PATH"@,
                status,
            ),
        },
{
    if status == ERROR_SUCCESS {
        Ok(())
    } else {
        Err(failure_text("failed to write machine PATH", status))
    }
}

/// A search path that was written reads back as it was, where no character of it is a zero.
pub proof fn a_written_path_reads_back(path_value: Seq<char>)
    requires
        !path_value.contains('\0'),
    ensures
        ({
            let written = utf16_units(path_value).push(0);
            utf16_lossy(written.take(first_nul(written))) == path_value
        }),
{
    let units = utf16_units(path_value);
    assert forall|k: int| 0 <= k < units.len() implies #[trigger] units[k] != 0 by {
        lemma_no_zero_unit(path_value, k);
    }
    lemma_nul_behind(units, Seq::empty());
    assert(units.push(0) + Seq::<u16>::empty() =~= units.push(0));
    assert(units.push(0).take(units.len() as int) =~= units);
    utf16_reads_back(path_value);
}

/// A directory and what lies in it, or in a directory in it, lies below it, with or without a
/// separator at the end of its name; what only begins with the same letters does not.
pub proof fn only_what_is_inside_lies_below(dir: Seq<char>, rest: Seq<char>)
    requires
        dir.len() > 0,
        !is_separator_spec(dir.last()),
    ensures
        lies_below(dir, dir),
        lies_below(dir.push('\\') + rest, dir),
        lies_below(dir.push('\\') + rest, dir.push('\\')),
        rest.len() > 0 && !is_separator_spec(rest[0]) ==> !lies_below(dir + rest, dir),
        lies_below(rest, dir) ==> dir.is_prefix_of(rest),
{
    assert(trim_separators(dir) == dir);
    assert(dir.push('\\').drop_last() =~= dir);
    assert(trim_separators(dir.push('\\')) == dir);
    let n = dir.len() as int;
    let inside = dir.push('\\') + rest;
    assert(dir.subrange(0, n) =~= dir);
    assert(inside.subrange(0, n) =~= dir);
    assert(inside[n] == '\\');
    if rest.len() > 0 && !is_separator_spec(rest[0]) {
        assert((dir + rest)[n] == rest[0]);
    }
    if lies_below(rest, dir) {
        assert(rest.subrange(0, n) == dir);
        assert(dir =~= rest.take(n));
    }
}

/// Every file that is installed keeps its name, and goes from the one directory into the other.
pub proof fn an_installed_file_keeps_its_name(
    source: Seq<char>,
    install: Seq<char>,
    name: Seq<char>,
    required: bool,
)
    requires
        is_plain_name(name),
        source.len() > prefix_len(source) && behind_prefix(source) == path_body(source) && tidied(source)
            == source && !is_bare_server(source),
        install.len() > prefix_len(install) && behind_prefix(install) == path_body(install) && tidied(
            install,
        ) == install && !is_bare_server(install),
    ensures
        ({
            let copy = copy_of(source, install, name, required);
            &&& parent_spec(copy.source) == Some(source)
            &&& parent_spec(copy.destination) == Some(install)
            &&& file_name_spec(copy.source) == Some(name)
            &&& file_name_spec(copy.destination) == Some(name)
            &&& copy.required == required
        }),
{
    join_then_split(source, name);
    join_then_split(install, name);
}

} // verus!
