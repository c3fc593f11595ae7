//! Volumes: what the system says of its drives, and what is made of it.

use vstd::prelude::*;

use crate::targets::{a_drive_is_known_by_its_letter, drive_root_spec, drive_root_from_designator,
    is_capital_of, str_view, system_drive_root, system_root_spec, text_view};
use crate::text::{chars_of, eq_ignore_ascii_case, from_utf16_lossy, lemma_no_zero_unit,
    lemma_units_of_char, lower_all, push_text, string_of, strings_view, trim, trim_end_by,
    trim_end_separators, trim_separators, trim_spec, trimming_leaves_the_text, utf16_lossy,
    utf16_reads_back, utf16_units};

verus! {

/// How a volume is formatted.
#[derive(Debug, Clone, PartialEq, Eq)]
pub enum VolumeKind {
    Ntfs,
    Other(String),
    Unknown,
}

/// What is known of a volume.
#[derive(Debug, Clone, PartialEq, Eq)]
pub struct VolumeInfo {
    pub root: String,
    pub kind: VolumeKind,
    pub total_bytes: Option<u64>,
    pub free_bytes: Option<u64>,
}

/// Why volumes could not be found.
#[derive(Debug, Clone, Copy, PartialEq, Eq, Structural)]
pub enum WindowsVolumeError {
    /// There are no Windows volumes on this platform.
    UnsupportedPlatform,
}

impl WindowsVolumeError {
    /// What went wrong.
    #[must_use]
    pub fn describe(self) -> (r: String)
        ensures
            r@ == "Windows volume discovery is only supported on Windows"@,
    {
        "Windows volume discovery is only supported on Windows".to_owned()
    }
}

// ---------------------------------------------------------------------------------------------
// What the system hands back
// ---------------------------------------------------------------------------------------------

/// Where the first zero stands, or the length where there is none.
pub open spec fn first_nul(units: Seq<u16>) -> int
    decreases units.len(),
{
    if units.len() == 0 || units[0] == 0 {
        0
    } else {
        1 + first_nul(units.drop_first())
    }
}

/// The first zero stands behind the code units that are none.
pub proof fn lemma_nul_behind(units: Seq<u16>, rest: Seq<u16>)
    requires
        forall|k: int| 0 <= k < units.len() ==> #[trigger] units[k] != 0,
    ensures
        first_nul(units.push(0) + rest) == units.len(),
    decreases units.len(),
{
    let whole = units.push(0) + rest;
    if units.len() > 0 {
        let fewer = units.drop_first();
        assert forall|k: int| 0 <= k < fewer.len() implies #[trigger] fewer[k] != 0 by {
            assert(units[k + 1] != 0);
        }
        lemma_nul_behind(fewer, rest);
        assert(whole.drop_first() =~= fewer.push(0) + rest);
        assert(whole[0] == units[0]);
    }
}

/// The texts of a list in which each is ended by a zero, up to an empty one; what no zero ends is
/// left out.
pub open spec fn nul_ended_texts(units: Seq<u16>) -> Seq<Seq<char>>
    decreases units.len(),
{
    let end = first_nul(units);
    if end <= 0 || end >= units.len() {
        Seq::empty()
    } else {
        seq![utf16_lossy(units.take(end))] + nul_ended_texts(units.skip(end + 1))
    }
}

/// Where the first zero from `from` on stands.
fn nul_from(buffer: &[u16], from: usize) -> (r: usize)
    requires
        from <= buffer@.len(),
    ensures
        from <= r <= buffer@.len(),
        r - from == first_nul(buffer@.skip(from as int)),
{
    let mut i: usize = from;
    while i < buffer.len() && buffer[i] != 0
        invariant
            from <= i <= buffer@.len(),
            first_nul(buffer@.skip(from as int)) == i - from + first_nul(buffer@.skip(i as int)),
        decreases buffer@.len() - i,
    {
        assert(buffer@.skip(i as int)[0] == buffer@[i as int]);
        assert(buffer@.skip(i as int).drop_first() =~= buffer@.skip(i + 1));
        i += 1;
    }
    assert(i < buffer@.len() ==> buffer@.skip(i as int)[0] == buffer@[i as int]);
    i
}

/// The roots of the drives, as the system lists them.
#[must_use]
pub fn parse_drive_strings(buffer: &[u16]) -> (r: Vec<String>)
    ensures
        strings_view(r@) == nul_ended_texts(buffer@),
{
    let mut roots: Vec<String> = Vec::new();
    let mut start: usize = 0;
    assert(buffer@.skip(0) =~= buffer@);
    assert(strings_view(roots@) =~= Seq::<Seq<char>>::empty());
    loop
        invariant
            start <= buffer@.len(),
            strings_view(roots@) + nul_ended_texts(buffer@.skip(start as int)) == nul_ended_texts(
                buffer@,
            ),
        ensures
            strings_view(roots@) == nul_ended_texts(buffer@),
        decreases buffer@.len() - start,
    {
        let end = nul_from(buffer, start);
        let ghost rest = buffer@.skip(start as int);
        if end == start || end == buffer.len() {
            assert(nul_ended_texts(rest) =~= Seq::<Seq<char>>::empty());
            assert(strings_view(roots@) =~= strings_view(roots@) + nul_ended_texts(rest));
            break;
        }
        let ghost shown = roots@;
        let root = from_utf16_lossy(vstd::slice::slice_subrange(buffer, start, end));
        roots.push(root);
        proof {
            assert(buffer@.subrange(start as int, end as int) =~= rest.take(end - start));
            assert(rest.skip(end - start + 1) =~= buffer@.skip(end + 1));
            assert(strings_view(roots@) =~= strings_view(shown).push(root@));
            assert(strings_view(roots@) + nul_ended_texts(buffer@.skip(end + 1)) =~= strings_view(
                shown,
            ) + nul_ended_texts(rest));
        }
        start = end + 1;
    }
    roots
}

/// The code units of texts, each ended by a zero.
pub open spec fn ended_units(texts: Seq<Seq<char>>) -> Seq<u16>
    decreases texts.len(),
{
    if texts.len() == 0 {
        Seq::empty()
    } else {
        utf16_units(texts[0]).push(0) + ended_units(texts.drop_first())
    }
}

/// Drives that are listed one after the other, each ended by a zero and the list by another, read
/// back as they were, where none of them is empty and no character of them is a zero.
pub proof fn listed_drives_read_back(drives: Seq<Seq<char>>)
    requires
        forall|i: int|
            0 <= i < drives.len() ==> (#[trigger] drives[i]).len() > 0 && !drives[i].contains('\0'),
    ensures
        nul_ended_texts(ended_units(drives).push(0)) == drives,
    decreases drives.len(),
{
    let listed = ended_units(drives).push(0);
    if drives.len() == 0 {
        assert(listed[0] == 0);
        assert(nul_ended_texts(listed) =~= drives);
    } else {
        let first = drives[0];
        let fewer = drives.drop_first();
        let units = utf16_units(first);
        let rest = ended_units(fewer).push(0);
        assert forall|i: int| 0 <= i < fewer.len() implies (#[trigger] fewer[i]).len() > 0
            && !fewer[i].contains('\0') by {
            assert(fewer[i] == drives[i + 1]);
        }
        assert forall|k: int| 0 <= k < units.len() implies #[trigger] units[k] != 0 by {
            lemma_no_zero_unit(first, k);
        }
        listed_drives_read_back(fewer);
        lemma_units_of_char(first[0]);
        lemma_nul_behind(units, rest);
        utf16_reads_back(first);
        assert(listed =~= units.push(0) + rest);
        assert(listed.take(units.len() as int) =~= units);
        assert(listed.skip(units.len() as int + 1) =~= rest);
        assert(seq![first] + fewer =~= drives);
    }
}

/// The text before the first zero.
#[must_use]
pub fn trim_nul_utf16(buffer: &[u16]) -> (r: String)
    ensures
        r@ == utf16_lossy(buffer@.take(first_nul(buffer@))),
{
    let end = nul_from(buffer, 0);
    assert(buffer@.skip(0) =~= buffer@);
    assert(buffer@.subrange(0, end as int) =~= buffer@.take(end as int));
    from_utf16_lossy(vstd::slice::slice_subrange(buffer, 0, end))
}

/// Whether the kind is the one that this name of a file system stands for.
pub open spec fn is_kind_named(kind: VolumeKind, name: Seq<char>) -> bool {
    if lower_all(name) == lower_all("NTFS"@) {
        kind is Ntfs
    } else if name.len() == 0 {
        kind is Unknown
    } else {
        kind matches VolumeKind::Other(other) && other@ == name
    }
}

/// How a volume with this name of a file system is formatted.
#[must_use]
pub fn kind_from_name(name: String) -> (r: VolumeKind)
    ensures
        is_kind_named(r, name@),
{
    if eq_ignore_ascii_case(&name, "NTFS") {
        VolumeKind::Ntfs
    } else if chars_of(&name).len() == 0 {
        VolumeKind::Unknown
    } else {
        VolumeKind::Other(name)
    }
}

/// How a volume is formatted, from what the system wrote down as the name of its file system;
/// unknown where it wrote nothing.
#[must_use]
pub fn volume_kind(fs_name: Option<&[u16]>) -> (r: VolumeKind)
    ensures
        match fs_name {
            Some(units) => is_kind_named(r, utf16_lossy(units@.take(first_nul(units@)))),
            None => r is Unknown,
        },
{
    match fs_name {
        Some(units) => kind_from_name(trim_nul_utf16(units)),
        None => VolumeKind::Unknown,
    }
}

/// What the system tells of the volume at a root: the name of its file system, and how much room
/// there is on it, in all and free; nothing where it does not tell.
#[derive(Debug)]
pub struct VolumeAnswer {
    pub fs_name: Option<Vec<u16>>,
    pub room: Option<(u64, u64)>,
}

/// Whether this is what is known of the volume at a root of which the system told this.
pub open spec fn is_volume_told(volume: VolumeInfo, root: Seq<char>, told: VolumeAnswer) -> bool {
    &&& volume.root@ == root
    &&& match told.fs_name {
        Some(units) => is_kind_named(volume.kind, utf16_lossy(units@.take(first_nul(units@)))),
        None => volume.kind is Unknown,
    }
    &&& volume.total_bytes == match told.room {
        Some(room) => Some(room.0),
        None => None,
    }
    &&& volume.free_bytes == match told.room {
        Some(room) => Some(room.1),
        None => None,
    }
}

fn volume_told(root: String, told: &VolumeAnswer) -> (r: VolumeInfo)
    ensures
        is_volume_told(r, root@, *told),
{
    let kind = match &told.fs_name {
        Some(units) => volume_kind(Some(units.as_slice())),
        None => volume_kind(None),
    };
    let (total_bytes, free_bytes) = match told.room {
        Some(room) => (Some(room.0), Some(room.1)),
        None => (None, None),
    };
    VolumeInfo { root, kind, total_bytes, free_bytes }
}

/// The volumes at these roots: one for each, in their order, whatever the system told of it.
#[must_use]
pub fn listed_volumes(roots: &Vec<String>, answers: &Vec<VolumeAnswer>) -> (r: Vec<VolumeInfo>)
    requires
        roots@.len() == answers@.len(),
    ensures
        r@.len() == roots@.len(),
        forall|i: int|
            0 <= i < r@.len() ==> is_volume_told(#[trigger] r@[i], roots@[i]@, answers@[i]),
{
    let mut r: Vec<VolumeInfo> = Vec::new();
    let mut i: usize = 0;
    while i < roots.len()
        invariant
            roots@.len() == answers@.len(),
            i <= roots@.len(),
            r@.len() == i,
            forall|k: int|
                0 <= k < i ==> is_volume_told(#[trigger] r@[k], roots@[k]@, answers@[k]),
        decreases roots@.len() - i,
    {
        r.push(volume_told(roots[i].clone(), &answers[i]));
        i += 1;
    }
    r
}

// ---------------------------------------------------------------------------------------------
// Volumes to choose from
// ---------------------------------------------------------------------------------------------

/// A volume as it is offered.
#[derive(Debug)]
pub struct VolumeShortcut {
    pub root: String,
    pub label: String,
    pub is_ntfs: bool,
    pub total_bytes: Option<u64>,
    pub free_bytes: Option<u64>,
}

/// The drive of a root, without the backslashes at its end.
pub open spec fn drive_of_root(root: Seq<char>) -> Seq<char> {
    trim_end_by(root, |c: char| c == '\\')
}

/// What a volume is called: its drive and how it is formatted, as far as that is known.
pub open spec fn volume_label(root: Seq<char>, kind: VolumeKind) -> Seq<char> {
    match kind {
        VolumeKind::Ntfs => drive_of_root(root) + " NTFS"@,
        VolumeKind::Other(name) => if name@.len() > 0 {
            drive_of_root(root) + " "@ + name@
        } else {
            drive_of_root(root)
        },
        VolumeKind::Unknown => drive_of_root(root),
    }
}

fn drive_of(root: &str) -> (r: String)
    ensures
        r@ == drive_of_root(root@),
{
    let v = chars_of(root);
    let ghost slash = |c: char| c == '\\';
    let mut end: usize = v.len();
    assert(v@.take(v@.len() as int) =~= v@);
    while end > 0 && v[end - 1] == '\\'
        invariant
            end <= v@.len(),
            slash == (|c: char| c == '\\'),
            trim_end_by(v@.take(end as int), slash) == trim_end_by(v@, slash),
        decreases end,
    {
        assert(v@.take(end as int).drop_last() =~= v@.take(end - 1));
        end -= 1;
    }
    assert(v@.subrange(0, end as int) =~= v@.take(end as int));
    string_of(&v, 0, end)
}

/// A volume as it is offered.
#[must_use]
pub fn volume_shortcut(volume: VolumeInfo) -> (r: VolumeShortcut)
    ensures
        r.root@ == volume.root@,
        r.label@ == volume_label(volume.root@, volume.kind),
        r.is_ntfs == (volume.kind is Ntfs),
        r.total_bytes == volume.total_bytes,
        r.free_bytes == volume.free_bytes,
{
    let mut label = drive_of(&volume.root);
    let is_ntfs = match &volume.kind {
        VolumeKind::Ntfs => {
            push_text(&mut label, " NTFS");
            true
        },
        VolumeKind::Other(name) => {
            if chars_of(name).len() > 0 {
                push_text(&mut label, " ");
                push_text(&mut label, name);
            }
            false
        },
        VolumeKind::Unknown => false,
    };
    VolumeShortcut {
        root: volume.root,
        label,
        is_ntfs,
        total_bytes: volume.total_bytes,
        free_bytes: volume.free_bytes,
    }
}

/// The root of the drive that a text names.
pub open spec fn drive_root_named(value: Seq<char>) -> Option<Seq<char>> {
    drive_root_spec(trim_separators(trim_spec(value)))
}

/// The root of a drive names itself.
pub proof fn a_root_names_itself(value: Seq<char>)
    requires
        drive_root_named(value) is Some,
    ensures
        drive_root_named(drive_root_named(value)->0) == drive_root_named(value),
{
    let root = drive_root_named(value)->0;
    let drive = root.drop_last();
    assert(trim_separators(root) == trim_separators(drive));
    assert(trim_separators(drive) == drive);
}

/// The root of the drive that a text names.
#[must_use]
pub fn normalize_drive_root(value: &str) -> (r: Option<String>)
    ensures
        text_view(r) == drive_root_named(value@),
{
    drive_root_from_designator(&trim_end_separators(&trim(value)))
}

/// Where the first of the volumes stands that `p` accepts, or how many there are.
pub open spec fn first_volume(volumes: Seq<VolumeShortcut>, p: spec_fn(VolumeShortcut) -> bool) -> int
    decreases volumes.len(),
{
    if volumes.len() == 0 || p(volumes[0]) {
        0
    } else {
        1 + first_volume(volumes.drop_first(), p)
    }
}

/// The root of the first of the volumes that `p` accepts.
pub open spec fn first_root(volumes: Seq<VolumeShortcut>, p: spec_fn(VolumeShortcut) -> bool) -> Option<
    Seq<char>,
> {
    let i = first_volume(volumes, p);
    if 0 <= i < volumes.len() {
        Some(volumes[i].root@)
    } else {
        None
    }
}

/// The path that a scan starts from where none was given: the drive of the system, as it is listed
/// where it is; else the first NTFS volume; else the first volume; else the current directory.
pub open spec fn default_path(system_drive: Option<Seq<char>>, volumes: Seq<VolumeShortcut>) -> Seq<char> {
    let named = match system_drive {
        Some(value) => drive_root_named(value),
        None => None,
    };
    match named {
        Some(root) => match first_root(
            volumes,
            |v: VolumeShortcut| lower_all(v.root@) == lower_all(root),
        ) {
            Some(listed) => listed,
            None => root,
        },
        None => match first_root(volumes, |v: VolumeShortcut| v.is_ntfs) {
            Some(root) => root,
            None => if volumes.len() > 0 {
                volumes[0].root@
            } else {
                "."@
            },
        },
    }
}

fn find_root(volumes: &Vec<VolumeShortcut>, root: &str) -> (r: Option<String>)
    ensures
        text_view(r) == first_root(
            volumes@,
            |v: VolumeShortcut| lower_all(v.root@) == lower_all(root@),
        ),
{
    let ghost same = |v: VolumeShortcut| lower_all(v.root@) == lower_all(root@);
    let mut i: usize = 0;
    assert(volumes@.skip(0) =~= volumes@);
    while i < volumes.len()
        invariant
            i <= volumes@.len(),
            same == (|v: VolumeShortcut| lower_all(v.root@) == lower_all(root@)),
            first_volume(volumes@, same) == i + first_volume(volumes@.skip(i as int), same),
        decreases volumes@.len() - i,
    {
        assert(volumes@.skip(i as int)[0] == volumes@[i as int]);
        if eq_ignore_ascii_case(&volumes[i].root, root) {
            return Some(volumes[i].root.clone());
        }
        assert(volumes@.skip(i as int).drop_first() =~= volumes@.skip(i + 1));
        i += 1;
    }
    None
}

fn find_ntfs(volumes: &Vec<VolumeShortcut>) -> (r: Option<String>)
    ensures
        text_view(r) == first_root(volumes@, |v: VolumeShortcut| v.is_ntfs),
{
    let ghost ntfs = |v: VolumeShortcut| v.is_ntfs;
    let mut i: usize = 0;
    assert(volumes@.skip(0) =~= volumes@);
    while i < volumes.len()
        invariant
            i <= volumes@.len(),
            ntfs == (|v: VolumeShortcut| v.is_ntfs),
            first_volume(volumes@, ntfs) == i + first_volume(volumes@.skip(i as int), ntfs),
        decreases volumes@.len() - i,
    {
        assert(volumes@.skip(i as int)[0] == volumes@[i as int]);
        if volumes[i].is_ntfs {
            return Some(volumes[i].root.clone());
        }
        assert(volumes@.skip(i as int).drop_first() =~= volumes@.skip(i + 1));
        i += 1;
    }
    None
}

/// The path that a scan starts from where none was given; see [`default_path`].
#[must_use]
pub fn default_scan_path_from(system_drive: Option<&str>, volumes: &Vec<VolumeShortcut>) -> (r: String)
    ensures
        r@ == default_path(str_view(system_drive), volumes@),
{
    let named = match system_drive {
        Some(value) => normalize_drive_root(value),
        None => None,
    };
    if let Some(root) = named {
        return match find_root(volumes, &root) {
            Some(listed) => listed,
            None => root,
        };
    }
    match find_ntfs(volumes) {
        Some(root) => root,
        None => if volumes.len() > 0 {
            volumes[0].root.clone()
        } else {
            ".".to_owned()
        },
    }
}

/// The path that the window starts from where none was given: the drive of the system; else the
/// first NTFS volume; else the first volume, if there is one.
pub open spec fn startup_path(system_drive: Option<Seq<char>>, volumes: Seq<VolumeShortcut>) -> Option<
    Seq<char>,
> {
    let named = match system_drive {
        Some(value) => system_root_spec(value),
        None => None,
    };
    match named {
        Some(root) => Some(root),
        None => match first_root(volumes, |v: VolumeShortcut| v.is_ntfs) {
            Some(root) => Some(root),
            None => if volumes.len() > 0 {
                Some(volumes[0].root@)
            } else {
                None
            },
        },
    }
}

/// The path that the window starts from where none was given; see [`startup_path`].
#[must_use]
pub fn default_startup_path(system_drive: Option<&str>, volumes: &Vec<VolumeShortcut>) -> (r: Option<
    String,
>)
    ensures
        text_view(r) == startup_path(str_view(system_drive), volumes@),
{
    let named = match system_drive {
        Some(value) => system_drive_root(value),
        None => None,
    };
    if let Some(root) = named {
        return Some(root);
    }
    match find_ntfs(volumes) {
        Some(root) => Some(root),
        None => if volumes.len() > 0 {
            Some(volumes[0].root.clone())
        } else {
            None
        },
    }
}

// ---------------------------------------------------------------------------------------------
// Laws
// ---------------------------------------------------------------------------------------------

/// A file system whose name the system wrote down is known by that name, and NTFS whatever the case
/// of its letters; what has no name is not known. Of the room the system tells all of it first, then
/// what is free.
pub proof fn a_volume_is_known_by_what_was_told(
    volume: VolumeInfo,
    root: Seq<char>,
    told: VolumeAnswer,
    name: Seq<char>,
    rest: Seq<u16>,
)
    requires
        is_volume_told(volume, root, told),
        told.fs_name matches Some(units) && units@ == utf16_units(name).push(0) + rest,
        !name.contains('\0'),
    ensures
        volume.root@ == root,
        volume.kind is Ntfs <==> lower_all(name) == seq!['n', 't', 'f', 's'],
        volume.kind is Unknown <==> name.len() == 0,
        volume.kind matches VolumeKind::Other(other) ==> other@ == name,
        told.room matches Some(room) ==> volume.total_bytes == Some(room.0) && volume.free_bytes
            == Some(room.1),
        told.room is None ==> volume.total_bytes is None && volume.free_bytes is None,
{
    let units = utf16_units(name);
    let all = told.fs_name->0@;
    assert forall|k: int| 0 <= k < units.len() implies #[trigger] units[k] != 0 by {
        lemma_no_zero_unit(name, k);
    }
    lemma_nul_behind(units, rest);
    utf16_reads_back(name);
    assert(all.take(units.len() as int) =~= units);
    reveal_strlit("NTFS");
    assert(lower_all("NTFS"@) =~= seq!['n', 't', 'f', 's']);
    if name.len() == 0 {
        assert(lower_all(name).len() == 0);
    }
}

/// A volume is called by its drive, and by the name of its file system behind a space where it has
/// one.
pub proof fn a_volume_is_called_by_its_drive(drive: Seq<char>, kind: VolumeKind)
    requires
        drive.len() > 0,
        drive.last() != '\\',
    ensures
        kind is Ntfs ==> volume_label(drive.push('\\'), kind) == drive + seq![' ', 'N', 'T', 'F', 'S'],
        kind is Unknown ==> volume_label(drive.push('\\'), kind) == drive,
        kind matches VolumeKind::Other(name) ==> (name@.len() > 0 ==> volume_label(
            drive.push('\\'),
            kind,
        ) == drive + seq![' '] + name@),
        volume_label(drive, kind) == volume_label(drive.push('\\'), kind),
{
    reveal_strlit(" NTFS");
    reveal_strlit(" ");
    assert(drive.push('\\').drop_last() =~= drive);
    assert(drive_of_root(drive) == drive);
    assert(drive_of_root(drive.push('\\')) == drive);
    assert(" NTFS"@ =~= seq![' ', 'N', 'T', 'F', 'S']);
    assert(" "@ =~= seq![' ']);
}

proof fn lemma_first_volume(volumes: Seq<VolumeShortcut>, p: spec_fn(VolumeShortcut) -> bool)
    ensures
        0 <= first_volume(volumes, p) <= volumes.len(),
        first_volume(volumes, p) < volumes.len() ==> p(volumes[first_volume(volumes, p)]),
        forall|j: int| 0 <= j < first_volume(volumes, p) ==> !p(#[trigger] volumes[j]),
    decreases volumes.len(),
{
    if volumes.len() > 0 && !p(volumes[0]) {
        let fewer = volumes.drop_first();
        lemma_first_volume(fewer, p);
        assert forall|j: int| 0 <= j < first_volume(volumes, p) implies !p(#[trigger] volumes[j]) by {
            if j > 0 {
                assert(!p(fewer[j - 1]));
            }
        }
    }
}

/// Where the system does not name its drive, a scan starts from the first volume with NTFS, whatever
/// stands before it; from the first of all where none has it; and where there is no volume, from the
/// current directory. The window starts from the same volume, if there is one.
pub proof fn a_scan_starts_from_the_first_ntfs_volume(volumes: Seq<VolumeShortcut>, i: int)
    requires
        0 <= i < volumes.len(),
        volumes[i].is_ntfs || (i == 0 && forall|j: int|
            0 <= j < volumes.len() ==> !(#[trigger] volumes[j]).is_ntfs),
        forall|j: int| 0 <= j < i ==> !(#[trigger] volumes[j]).is_ntfs,
    ensures
        default_path(None, volumes) == volumes[i].root@,
        startup_path(None, volumes) == Some(volumes[i].root@),
        default_path(None, Seq::empty()) == seq!['.'],
        startup_path(None, Seq::empty()) is None,
{
    let ntfs = |v: VolumeShortcut| v.is_ntfs;
    lemma_first_volume(volumes, ntfs);
    let at = first_volume(volumes, ntfs);
    if volumes[i].is_ntfs {
        assert(ntfs(volumes[i]));
        if at > i {
            assert(!ntfs(volumes[i]));
        }
    } else if at < volumes.len() {
        assert(volumes[at].is_ntfs);
    }
    let none = Seq::<VolumeShortcut>::empty();
    assert(first_volume(none, ntfs) == 0);
    reveal_strlit(".");
    assert("."@ =~= seq!['.']);
}

/// Where the system names its drive, a scan starts from that drive, written as it is listed where it
/// is listed.
pub proof fn a_scan_starts_from_the_drive_of_the_system(
    volumes: Seq<VolumeShortcut>,
    capital: char,
    letter: char,
)
    requires
        is_capital_of(capital, letter),
    ensures
        ({
            let root = seq![capital, ':', '\\'];
            let path = default_path(Some(seq![letter, ':']), volumes);
            &&& lower_all(path) == lower_all(root)
            &&& path == root || exists|k: int|
                0 <= k < volumes.len() && (#[trigger] volumes[k]).root@ == path
            &&& startup_path(Some(seq![letter, ':']), volumes) == Some(seq![letter, ':', '\\'])
        }),
{
    let value = seq![letter, ':'];
    let root = seq![capital, ':', '\\'];
    trimming_leaves_the_text(Seq::empty(), value, Seq::empty());
    assert(Seq::<char>::empty() + value + Seq::<char>::empty() =~= value);
    a_drive_is_known_by_its_letter(capital, letter, Seq::empty(), Seq::empty());
    assert(trim_separators(value) == value);
    assert(drive_root_named(value) == Some(root));
    let same = |v: VolumeShortcut| lower_all(v.root@) == lower_all(root);
    lemma_first_volume(volumes, same);
    let at = first_volume(volumes, same);
    if at < volumes.len() {
        assert(same(volumes[at]));
    }
    assert(value.push('\\') =~= seq![letter, ':', '\\']);
}

} // verus!
