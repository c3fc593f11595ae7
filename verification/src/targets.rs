//! What a scan is pointed at: drives, and paths on them.

use vstd::prelude::*;

use crate::text::{all_white, ascii_upper, ascii_upper_spec, chars_of, is_separator_spec,
    is_white_space_spec, lemma_trim_end_by, lower_all, starts_with_spec, string_of, to_ascii_lowercase,
    trim, trim_end_separators, trim_separators, trim_spec, trimming_leaves_the_text};
use crate::winpath::{begins_with_drive, has_drive, join, join_path};

verus! {

/// Which scanner a scan uses.
#[derive(Debug, Clone, Copy, PartialEq, Eq, Structural)]
pub enum ScannerMode {
    Auto,
    Ntfs,
    Fallback,
}

/// The drive with this letter, such as `C:`.
pub open spec fn drive_with(letter: char) -> Seq<char> {
    seq![ascii_upper_spec(letter), ':']
}

fn drive_text(letter: char) -> (r: String)
    ensures
        r@ == drive_with(letter),
{
    let mut r = String::new();
    r.push(ascii_upper(letter));
    r.push(':');
    assert(r@ =~= drive_with(letter));
    r
}

/// Whether the path is nothing but a drive designator.
pub open spec fn is_designator(path: Seq<char>) -> bool {
    path.len() == 2 && has_drive(path)
}

/// The drive that a path is the root of, if it is one.
pub open spec fn drive_volume_spec(path: Seq<char>) -> Option<Seq<char>> {
    if is_designator(trim_separators(path)) {
        Some(drive_with(path[0]))
    } else {
        None
    }
}

/// What an optional text holds.
pub open spec fn text_view(text: Option<String>) -> Option<Seq<char>> {
    match text {
        Some(s) => Some(s@),
        None => None,
    }
}

/// What an optional text holds.
pub open spec fn str_view(text: Option<&str>) -> Option<Seq<char>> {
    match text {
        Some(s) => Some(s@),
        None => None,
    }
}

/// The drive that a path is the root of, if it is one.
#[must_use]
pub fn drive_volume(path: &str) -> (r: Option<String>)
    ensures
        text_view(r) == drive_volume_spec(path@),
{
    let trimmed = chars_of(&trim_end_separators(path));
    proof {
        lemma_trim_end_by(path@, |c: char| is_separator_spec(c));
    }
    if trimmed.len() == 2 && begins_with_drive(&trimmed) {
        assert(trimmed@[0] == path@[0]);
        return Some(drive_text(trimmed[0]));
    }
    None
}

/// The drive that a path lies on, if it names one.
pub open spec fn drive_for_path_spec(path: Seq<char>) -> Option<Seq<char>> {
    if has_drive(path) {
        Some(drive_with(path[0]))
    } else {
        None
    }
}

/// The drive that a path lies on, if it names one.
#[must_use]
pub fn drive_for_path(path: &str) -> (r: Option<String>)
    ensures
        text_view(r) == drive_for_path_spec(path@),
{
    let v = chars_of(path);
    if begins_with_drive(&v) {
        return Some(drive_text(v[0]));
    }
    None
}

/// The root of a drive lies on that drive.
pub proof fn a_root_lies_on_its_drive(path: Seq<char>)
    requires
        drive_volume_spec(path) is Some,
    ensures
        drive_for_path_spec(path) == drive_volume_spec(path),
{
    lemma_trim_end_by(path, |c: char| is_separator_spec(c));
    let trimmed = trim_separators(path);
    assert(path[0] == trimmed[0] && path[1] == trimmed[1]);
}

/// What a direct scan of a drive shows of it: the path that was asked for, everything where that is
/// the root of a drive.
#[must_use]
pub fn display_root_for_direct_scan(path: &str) -> (r: Option<String>)
    ensures
        text_view(r) == if drive_volume_spec(path@) is None {
            Some(path@)
        } else {
            None
        },
{
    match drive_volume(path) {
        Some(_) => None,
        None => Some(path.to_owned()),
    }
}

/// The root of the drive that a bare designator names.
pub open spec fn drive_root_spec(path: Seq<char>) -> Option<Seq<char>> {
    if is_designator(path) {
        Some(drive_with(path[0]).push('\\'))
    } else {
        None
    }
}

/// The root of the drive that a bare designator names.
#[must_use]
pub fn drive_root_from_designator(path: &str) -> (r: Option<String>)
    ensures
        text_view(r) == drive_root_spec(path@),
{
    let v = chars_of(path);
    if v.len() == 2 && begins_with_drive(&v) {
        let mut root = drive_text(v[0]);
        root.push('\\');
        return Some(root);
    }
    None
}

/// The path that is scanned: the root where a bare drive was named.
pub open spec fn scan_input_spec(path: Seq<char>) -> Seq<char> {
    match drive_root_spec(path) {
        Some(root) => root,
        None => path,
    }
}

/// A path that is scanned stays as it is where it is asked for again.
pub proof fn a_scanned_path_stays(path: Seq<char>)
    ensures
        scan_input_spec(scan_input_spec(path)) == scan_input_spec(path),
{
}

/// The path that is scanned: the root where a bare drive was named.
#[must_use]
pub fn scan_input_path(path: &str) -> (r: String)
    ensures
        r@ == scan_input_spec(path@),
{
    match drive_root_from_designator(path) {
        Some(root) => root,
        None => path.to_owned(),
    }
}

/// The path that a scan is reported under.
#[must_use]
pub fn display_scan_path(path: &str) -> (r: String)
    ensures
        r@ == scan_input_spec(path@),
{
    scan_input_path(path)
}

/// The path without the prefix that turns off its interpretation.
pub open spec fn without_verbatim_prefix(path: Seq<char>) -> Seq<char> {
    if starts_with_spec(path, seq!['\\', '\\', '?', '\\']) {
        path.skip(4)
    } else {
        path
    }
}

/// The path without the prefix that turns off its interpretation.
#[must_use]
pub fn strip_verbatim_prefix(path: &str) -> (r: String)
    ensures
        r@ == without_verbatim_prefix(path@),
{
    let v = chars_of(path);
    let ghost prefix = seq!['\\', '\\', '?', '\\'];
    if v.len() >= 4 && v[0] == '\\' && v[1] == '\\' && v[2] == '?' && v[3] == '\\' {
        assert(path@.take(4) =~= prefix);
        assert(path@.skip(4) =~= v@.subrange(4, v@.len() as int));
        return string_of(&v, 4, v.len());
    }
    proof {
        if starts_with_spec(path@, prefix) {
            assert(path@.take(4) == prefix);
            assert(path@.take(4)[0] == path@[0]);
            assert(path@.take(4)[1] == path@[1]);
            assert(path@.take(4)[2] == path@[2]);
            assert(path@.take(4)[3] == path@[3]);
        }
    }
    path.to_owned()
}

/// The full path of a scan target: the root of a bare drive; else the path that the system gave for
/// it, without the prefix that turns off interpretation; else the path seen from the current
/// directory, where there is one.
pub open spec fn resolved_spec(
    path: Seq<char>,
    canonical: Option<Seq<char>>,
    current_dir: Option<Seq<char>>,
) -> Seq<char> {
    match (drive_root_spec(path), canonical, current_dir) {
        (Some(root), _, _) => root,
        (None, Some(full), _) => without_verbatim_prefix(full),
        (None, None, Some(dir)) => join_path(dir, path),
        (None, None, None) => path,
    }
}

/// The full path of a scan target; see [`resolved_spec`].
#[must_use]
pub fn resolved_scan_path(path: &str, canonical: Option<&str>, current_dir: Option<&str>) -> (r: String)
    ensures
        r@ == resolved_spec(path@, str_view(canonical), str_view(current_dir)),
{
    if let Some(root) = drive_root_from_designator(path) {
        return root;
    }
    match canonical {
        Some(full) => strip_verbatim_prefix(full),
        None => match current_dir {
            Some(dir) => join(dir, path),
            None => path.to_owned(),
        },
    }
}

/// Whether the argument names the root of a drive.
#[must_use]
pub fn volume_arg_is_drive_root(volume: &str) -> (r: bool)
    ensures
        r == (drive_volume_spec(volume@) is Some),
{
    match drive_volume(volume) {
        Some(_) => true,
        None => false,
    }
}

/// What paths are compared by: without white space around them, without separators at the end, with
/// small ASCII letters.
pub open spec fn path_key(path: Seq<char>) -> Seq<char> {
    lower_all(trim_separators(trim_spec(path)))
}

/// What paths are compared by.
#[must_use]
pub fn normalized_path_key(path: &str) -> (r: String)
    ensures
        r@ == path_key(path@),
{
    to_ascii_lowercase(&trim_end_separators(&trim(path)))
}

/// The root of the drive that the system starts from, as the environment names it.
pub open spec fn system_root_spec(value: Seq<char>) -> Option<Seq<char>> {
    let drive = trim_separators(trim_spec(value));
    if drive.len() == 0 || drive.last() != ':' {
        None
    } else {
        Some(drive.push('\\'))
    }
}

/// The root of the drive that the system starts from, as the environment names it.
#[must_use]
pub fn system_drive_root(value: &str) -> (r: Option<String>)
    ensures
        text_view(r) == system_root_spec(value@),
{
    let mut drive = trim_end_separators(&trim(value));
    let v = chars_of(&drive);
    if v.len() == 0 || v[v.len() - 1] != ':' {
        return None;
    }
    drive.push('\\');
    Some(drive)
}

// ---------------------------------------------------------------------------------------------
// Laws
// ---------------------------------------------------------------------------------------------

/// Whether `capital` is the capital of an ASCII letter, which may be one itself.
pub open spec fn is_capital_of(capital: char, letter: char) -> bool {
    &&& 'A' <= capital <= 'Z'
    &&& letter == capital || letter as int == capital as int + 32
}

/// Whether every character of `s` is a backslash or a slash.
pub open spec fn all_separators(s: Seq<char>) -> bool {
    forall|k: int| 0 <= k < s.len() ==> (#[trigger] s[k] == '\\' || s[k] == '/')
}

/// A path behind a letter and a colon lies on the drive with that letter, which is written as a
/// capital; the letter and the colon alone, or with separators behind them, are its root.
pub proof fn a_drive_is_known_by_its_letter(
    capital: char,
    letter: char,
    rest: Seq<char>,
    separators: Seq<char>,
)
    requires
        is_capital_of(capital, letter),
        all_separators(separators),
    ensures
        drive_for_path_spec(seq![letter, ':'] + rest) == Some(seq![capital, ':']),
        drive_volume_spec(seq![letter, ':'] + separators) == Some(seq![capital, ':']),
        drive_root_spec(seq![letter, ':']) == Some(seq![capital, ':', '\\']),
        scan_input_spec(seq![letter, ':']) == seq![capital, ':', '\\'],
        rest.len() > 0 ==> drive_root_spec(seq![letter, ':'] + rest) is None,
        rest.len() > 0 ==> scan_input_spec(seq![letter, ':'] + rest) == seq![letter, ':'] + rest,
        rest.len() > 0 && !(rest.last() == '\\' || rest.last() == '/') ==> drive_volume_spec(
            seq![letter, ':'] + rest,
        ) is None,
{
    let drive = seq![letter, ':'];
    assert(drive_with(letter) =~= seq![capital, ':']);
    assert(drive_with(letter).push('\\') =~= seq![capital, ':', '\\']);
    lemma_separators_off(drive, separators);
    assert((drive + separators)[0] == letter);
    assert(trim_separators(drive) == drive);
    if rest.len() > 0 {
        assert((drive + rest).last() == rest.last());
    }
}

pub proof fn lemma_separators_off(s: Seq<char>, separators: Seq<char>)
    requires
        all_separators(separators),
        s.len() == 0 || !is_separator_spec(s.last()),
    ensures
        trim_separators(s + separators) == s,
    decreases separators.len(),
{
    if separators.len() == 0 {
        assert(s + separators =~= s);
    } else {
        let last = separators[separators.len() - 1];
        assert(last == '\\' || last == '/');
        assert((s + separators).drop_last() =~= s + separators.drop_last());
        assert((s + separators).last() == last);
        lemma_separators_off(s, separators.drop_last());
    }
}

/// A path that begins neither with a letter nor has a colon behind its first character lies on no
/// drive that it names.
pub proof fn without_a_colon_there_is_no_drive(path: Seq<char>)
    requires
        path.len() < 2 || path[1] != ':' || !('A' <= path[0] <= 'Z' || 'a' <= path[0] <= 'z'),
    ensures
        drive_for_path_spec(path) is None,
        drive_volume_spec(path) is None,
        drive_root_spec(path) is None,
        scan_input_spec(path) == path,
{
    lemma_trim_end_by(path, |c: char| is_separator_spec(c));
}

/// Paths are the same to the eye whatever the case of their ASCII letters, the separators at their
/// end, and the white space around them.
pub proof fn paths_are_compared_to_the_eye(
    before: Seq<char>,
    path: Seq<char>,
    separators: Seq<char>,
    after: Seq<char>,
)
    requires
        all_white(before),
        all_white(after),
        all_separators(separators),
        path.len() > 0,
        !is_white_space_spec(path[0]),
        !is_white_space_spec(path.last()),
        !is_separator_spec(path.last()),
    ensures
        path_key(before + (path + separators) + after) == lower_all(path),
        path_key(path) == lower_all(path),
{
    let whole = path + separators;
    assert(whole[0] == path[0]);
    if separators.len() > 0 {
        assert(whole.last() == separators[separators.len() - 1]);
    } else {
        assert(whole =~= path);
    }
    trimming_leaves_the_text(before, whole, after);
    lemma_separators_off(path, separators);
    trimming_leaves_the_text(Seq::empty(), path, Seq::empty());
    assert(Seq::<char>::empty() + path + Seq::<char>::empty() =~= path);
    lemma_separators_off(path, Seq::empty());
    assert(path + Seq::<char>::empty() =~= path);
}

/// What the system gives as the full path of a target is its path, apart from the prefix `\\?\`; what
/// names a bare drive is its root, and what the system gives no path for is looked up from the
/// current directory.
pub proof fn the_full_path_of_a_target_is_found(path: Seq<char>, full: Seq<char>, dir: Seq<char>)
    requires
        !(path.len() == 2 && path[1] == ':'),
        !(full.len() >= 4 && full[0] == '\\' && full[1] == '\\' && full[2] == '?' && full[3] == '\\'),
    ensures
        resolved_spec(path, Some(seq!['\\', '\\', '?', '\\'] + full), Some(dir)) == full,
        resolved_spec(path, Some(full), Some(dir)) == full,
        resolved_spec(path, None, Some(dir)) == join_path(dir, path),
        resolved_spec(path, None, None) == path,
{
    let prefix = seq!['\\', '\\', '?', '\\'];
    let long = prefix + full;
    assert(long.subrange(0, 4) =~= prefix);
    assert(long.skip(4) =~= full);
    if starts_with_spec(full, prefix) {
        assert(full.subrange(0, 4) == prefix);
        assert(full.subrange(0, 4)[0] == full[0]);
        assert(full.subrange(0, 4)[1] == full[1]);
        assert(full.subrange(0, 4)[2] == full[2]);
        assert(full.subrange(0, 4)[3] == full[3]);
    }
}

} // verus!
