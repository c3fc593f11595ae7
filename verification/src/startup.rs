//! What a window is started with, and how it goes about a scan.

use vstd::prelude::*;

use crate::command::ScanStep;
use crate::targets::{a_drive_is_known_by_its_letter, all_separators, display_root_for_direct_scan,
    drive_for_path, drive_for_path_spec, drive_volume, drive_volume_spec, is_capital_of, str_view,
    text_view, ScannerMode};
use crate::text::{chars_of, lower_all, push_text, same_text, strings_view, to_ascii_lowercase};
use crate::volume::{default_startup_path, startup_path, VolumeShortcut};

verus! {

/// How often the progress of a scan is reported to a window, in entries.
pub const UI_PROGRESS_EVERY: u64 = 1_024;

// ---------------------------------------------------------------------------------------------
// The scanners by name
// ---------------------------------------------------------------------------------------------

/// The scanner with this name, whatever its case; the automatic choice where there is none.
pub open spec fn scanner_named(name: Seq<char>) -> ScannerMode {
    if lower_all(name) == "ntfs"@ {
        ScannerMode::Ntfs
    } else if lower_all(name) == "fallback"@ {
        ScannerMode::Fallback
    } else {
        ScannerMode::Auto
    }
}

/// The name of a scanner.
pub open spec fn scanner_name(mode: ScannerMode) -> Seq<char> {
    match mode {
        ScannerMode::Auto => "auto"@,
        ScannerMode::Ntfs => "ntfs"@,
        ScannerMode::Fallback => "fallback"@,
    }
}

impl ScannerMode {
    /// The scanner with this name, whatever its case; the automatic choice where there is none.
    #[must_use]
    pub fn parse(value: &str) -> (r: Self)
        ensures
            r == scanner_named(value@),
    {
        let word = to_ascii_lowercase(value);
        if same_text(&word, "ntfs") {
            ScannerMode::Ntfs
        } else if same_text(&word, "fallback") {
            ScannerMode::Fallback
        } else {
            ScannerMode::Auto
        }
    }

    /// The name of a scanner.
    #[must_use]
    pub fn as_str(self) -> (r: &'static str)
        ensures
            r@ == scanner_name(self),
    {
        match self {
            ScannerMode::Auto => "auto",
            ScannerMode::Ntfs => "ntfs",
            ScannerMode::Fallback => "fallback",
        }
    }
}

/// Which scanner a window uses.
#[derive(Debug, Clone, Copy, PartialEq, Eq, Structural)]
pub enum UiScannerMode {
    Auto,
    Ntfs,
    Fallback,
}

/// The scanner with this name, whatever its case.
pub open spec fn ui_scanner_named(name: Seq<char>) -> Option<UiScannerMode> {
    if lower_all(name) == "auto"@ {
        Some(UiScannerMode::Auto)
    } else if lower_all(name) == "ntfs"@ {
        Some(UiScannerMode::Ntfs)
    } else if lower_all(name) == "fallback"@ {
        Some(UiScannerMode::Fallback)
    } else {
        None
    }
}

/// The name of a scanner on a command line.
pub open spec fn ui_scanner_name(mode: UiScannerMode) -> Seq<char> {
    match mode {
        UiScannerMode::Auto => "auto"@,
        UiScannerMode::Ntfs => "ntfs"@,
        UiScannerMode::Fallback => "fallback"@,
    }
}

/// The name of a scanner on a button.
pub open spec fn ui_scanner_label(mode: UiScannerMode) -> Seq<char> {
    match mode {
        UiScannerMode::Auto => "Auto"@,
        UiScannerMode::Ntfs => "NTFS"@,
        UiScannerMode::Fallback => "Fallback"@,
    }
}

/// The place of a scanner among the choices.
pub open spec fn ui_scanner_place(mode: UiScannerMode) -> i32 {
    match mode {
        UiScannerMode::Auto => 0,
        UiScannerMode::Ntfs => 1,
        UiScannerMode::Fallback => 2,
    }
}

/// The scanner at this place among the choices; the automatic choice where there is none.
pub open spec fn ui_scanner_at(index: i32) -> UiScannerMode {
    if index == 1 {
        UiScannerMode::Ntfs
    } else if index == 2 {
        UiScannerMode::Fallback
    } else {
        UiScannerMode::Auto
    }
}

/// A scanner is found by its place and by its name.
pub proof fn a_scanner_is_found_again(mode: UiScannerMode)
    ensures
        ui_scanner_at(ui_scanner_place(mode)) == mode,
        ui_scanner_named(ui_scanner_name(mode)) == Some(mode),
{
    reveal_strlit("auto");
    reveal_strlit("ntfs");
    reveal_strlit("fallback");
    assert(lower_all("auto"@) =~= "auto"@);
    assert(lower_all("ntfs"@) =~= "ntfs"@);
    assert(lower_all("fallback"@) =~= "fallback"@);
    assert("auto"@[0] != "ntfs"@[0]);
    assert("auto"@[0] != "fallback"@[0]);
    assert("ntfs"@[0] != "fallback"@[0]);
}

impl UiScannerMode {
    /// The scanner at this place among the choices; the automatic choice where there is none.
    #[must_use]
    pub fn from_index(index: i32) -> (r: Self)
        ensures
            r == ui_scanner_at(index),
    {
        if index == 1 {
            UiScannerMode::Ntfs
        } else if index == 2 {
            UiScannerMode::Fallback
        } else {
            UiScannerMode::Auto
        }
    }

    /// The place of a scanner among the choices.
    #[must_use]
    pub fn index(self) -> (r: i32)
        ensures
            r == ui_scanner_place(self),
    {
        match self {
            UiScannerMode::Auto => 0,
            UiScannerMode::Ntfs => 1,
            UiScannerMode::Fallback => 2,
        }
    }

    /// The name of a scanner on a button.
    #[must_use]
    pub fn label(self) -> (r: &'static str)
        ensures
            r@ == ui_scanner_label(self),
    {
        match self {
            UiScannerMode::Auto => "Auto",
            UiScannerMode::Ntfs => "NTFS",
            UiScannerMode::Fallback => "Fallback",
        }
    }

    /// The name of a scanner on a command line.
    #[must_use]
    pub fn arg_value(self) -> (r: &'static str)
        ensures
            r@ == ui_scanner_name(self),
    {
        match self {
            UiScannerMode::Auto => "auto",
            UiScannerMode::Ntfs => "ntfs",
            UiScannerMode::Fallback => "fallback",
        }
    }

    /// The scanner with this name, whatever its case.
    #[must_use]
    pub fn from_arg(value: &str) -> (r: Option<Self>)
        ensures
            r == ui_scanner_named(value@),
    {
        let word = to_ascii_lowercase(value);
        if same_text(&word, "auto") {
            Some(UiScannerMode::Auto)
        } else if same_text(&word, "ntfs") {
            Some(UiScannerMode::Ntfs)
        } else if same_text(&word, "fallback") {
            Some(UiScannerMode::Fallback)
        } else {
            None
        }
    }
}

// ---------------------------------------------------------------------------------------------
// The command line
// ---------------------------------------------------------------------------------------------

/// One part of a command line: an option with what follows it, or any other word.
#[derive(Debug)]
pub enum StartupWord {
    Path(Option<String>),
    Scanner(Option<String>),
    Scan,
    Other(String),
}

/// What a part of a command line says.
pub enum WordView {
    Path(Option<Seq<char>>),
    Scanner(Option<Seq<char>>),
    Scan,
    Other(Seq<char>),
}

impl View for StartupWord {
    type V = WordView;

    open spec fn view(&self) -> WordView {
        match *self {
            StartupWord::Path(value) => WordView::Path(text_view(value)),
            StartupWord::Scanner(value) => WordView::Scanner(text_view(value)),
            StartupWord::Scan => WordView::Scan,
            StartupWord::Other(word) => WordView::Other(word@),
        }
    }
}

/// What the parts of a command line say.
pub open spec fn words_view(words: Seq<StartupWord>) -> Seq<WordView> {
    words.map_values(|word: StartupWord| word@)
}

/// The parts of a command line.
pub open spec fn words_of(args: Seq<Seq<char>>) -> Seq<WordView>
    decreases args.len(),
{
    if args.len() == 0 {
        Seq::empty()
    } else {
        let next = if args.len() > 1 {
            Some(args[1])
        } else {
            None
        };
        let after_next = if args.len() > 1 {
            args.skip(2)
        } else {
            args.skip(1)
        };
        if args[0] == "--path"@ {
            seq![WordView::Path(next)] + words_of(after_next)
        } else if args[0] == "--scanner"@ {
            seq![WordView::Scanner(next)] + words_of(after_next)
        } else if args[0] == "--scan"@ {
            seq![WordView::Scan] + words_of(args.skip(1))
        } else {
            seq![WordView::Other(args[0])] + words_of(args.skip(1))
        }
    }
}

fn copy_text(text: &String) -> (r: String)
    ensures
        r@ == text@,
{
    text.as_str().to_owned()
}

/// The parts of a command line.
#[must_use]
pub fn startup_words(args: &Vec<String>) -> (r: Vec<StartupWord>)
    ensures
        words_view(r@) == words_of(strings_view(args@)),
{
    let ghost all = strings_view(args@);
    let mut words: Vec<StartupWord> = Vec::new();
    let mut i: usize = 0;
    assert(all.skip(0) =~= all);
    assert(words_view(words@) + words_of(all) =~= words_of(all));
    while i < args.len()
        invariant
            i <= args@.len(),
            all == strings_view(args@),
            words_of(all) == words_view(words@) + words_of(all.skip(i as int)),
        decreases args@.len() - i,
    {
        let ghost before = words@;
        let ghost rest = all.skip(i as int);
        proof {
            assert(args.len() == args@.len());
            assert(rest.len() == args@.len() - i);
            assert(rest[0] == args@[i as int]@);
            assert(rest.skip(1) =~= all.skip(i + 1));
            if i + 1 < args@.len() {
                assert(rest[1] == args@[i + 1]@);
                assert(rest.skip(2) =~= all.skip(i + 2));
            }
        }
        let word = args[i].as_str();
        let is_path = same_text(word, "--path");
        let is_scanner = same_text(word, "--scanner");
        if is_path || is_scanner {
            let next = if i + 1 < args.len() {
                Some(copy_text(&args[i + 1]))
            } else {
                None
            };
            i = if i + 1 < args.len() {
                i + 2
            } else {
                i + 1
            };
            let said = if is_path {
                StartupWord::Path(next)
            } else {
                StartupWord::Scanner(next)
            };
            words.push(said);
        } else if same_text(word, "--scan") {
            words.push(StartupWord::Scan);
            i += 1;
        } else {
            words.push(StartupWord::Other(copy_text(&args[i])));
            i += 1;
        }
        proof {
            let said = words@.last()@;
            assert(words_view(words@) =~= words_view(before).push(said));
            assert(words_of(rest) =~= seq![said] + words_of(all.skip(i as int)));
            assert(words_view(before) + (seq![said] + words_of(all.skip(i as int))) =~= words_view(
                words@,
            ) + words_of(all.skip(i as int)));
        }
    }
    assert(all.skip(i as int) =~= Seq::<Seq<char>>::empty());
    assert(words_view(words@) + words_of(all.skip(i as int)) =~= words_view(words@));
    words
}

/// The path that a command line names: the value of the last option for it, or else the first word
/// that is no option.
pub open spec fn path_said(words: Seq<WordView>) -> Option<Seq<char>>
    decreases words.len(),
{
    if words.len() == 0 {
        None
    } else {
        let before = path_said(words.drop_last());
        match words.last() {
            WordView::Path(value) => value,
            WordView::Other(word) => if before is None && !(word.len() > 0 && word[0] == '-') {
                Some(word)
            } else {
                before
            },
            _ => before,
        }
    }
}

/// The scanner that a command line names.
pub open spec fn scanner_said(words: Seq<WordView>) -> ScannerMode
    decreases words.len(),
{
    if words.len() == 0 {
        ScannerMode::Auto
    } else {
        match words.last() {
            WordView::Scanner(Some(name)) => scanner_named(name),
            _ => scanner_said(words.drop_last()),
        }
    }
}

/// The scanner that a command line names; a name that no scanner has is passed over.
pub open spec fn ui_scanner_said(words: Seq<WordView>) -> UiScannerMode
    decreases words.len(),
{
    if words.len() == 0 {
        UiScannerMode::Auto
    } else {
        let before = ui_scanner_said(words.drop_last());
        match words.last() {
            WordView::Scanner(Some(name)) => match ui_scanner_named(name) {
                Some(mode) => mode,
                None => before,
            },
            _ => before,
        }
    }
}

/// The last path that an option of a command line names.
pub open spec fn path_option_said(words: Seq<WordView>) -> Option<Seq<char>>
    decreases words.len(),
{
    if words.len() == 0 {
        None
    } else {
        match words.last() {
            WordView::Path(Some(path)) => Some(path),
            _ => path_option_said(words.drop_last()),
        }
    }
}

/// Whether a command line asks for a scan at once.
pub open spec fn scan_said(words: Seq<WordView>) -> bool {
    words.contains(WordView::Scan)
}

/// What a command line asks for.
#[derive(Debug)]
pub struct StartupArgs {
    pub path: Option<String>,
    pub scanner: ScannerMode,
    pub scan: bool,
}

/// What a command line asks a window for.
#[derive(Debug)]
pub struct UiStartupArgs {
    pub path: Option<String>,
    pub scanner_mode: UiScannerMode,
    pub scan: bool,
}

/// What a window is started with.
#[derive(Debug)]
pub struct NativeStartup {
    pub initial_path: String,
    pub scanner_mode: UiScannerMode,
    pub start_on_launch: bool,
}

fn said_path(words: &Vec<StartupWord>) -> (r: Option<String>)
    ensures
        text_view(r) == path_said(words_view(words@)),
{
    let ghost all = words_view(words@);
    let mut path: Option<String> = None;
    let mut i: usize = 0;
    while i < words.len()
        invariant
            i <= words@.len(),
            all == words_view(words@),
            text_view(path) == path_said(all.take(i as int)),
        decreases words@.len() - i,
    {
        proof {
            assert(all.take(i + 1).drop_last() =~= all.take(i as int));
            assert(all.take(i + 1).last() == words@[i as int]@);
        }
        match &words[i] {
            StartupWord::Path(Some(value)) => {
                path = Some(copy_text(value));
            },
            StartupWord::Path(None) => {
                path = None;
            },
            StartupWord::Other(word) => {
                let chars = chars_of(word);
                if path.is_none() && !(chars.len() > 0 && chars[0] == '-') {
                    path = Some(copy_text(word));
                }
            },
            _ => {},
        }
        i += 1;
    }
    assert(all.take(all.len() as int) =~= all);
    path
}

fn said_path_option(words: &Vec<StartupWord>) -> (r: Option<String>)
    ensures
        text_view(r) == path_option_said(words_view(words@)),
{
    let ghost all = words_view(words@);
    let mut path: Option<String> = None;
    let mut i: usize = 0;
    while i < words.len()
        invariant
            i <= words@.len(),
            all == words_view(words@),
            text_view(path) == path_option_said(all.take(i as int)),
        decreases words@.len() - i,
    {
        proof {
            assert(all.take(i + 1).drop_last() =~= all.take(i as int));
            assert(all.take(i + 1).last() == words@[i as int]@);
        }
        if let StartupWord::Path(Some(value)) = &words[i] {
            path = Some(copy_text(value));
        }
        i += 1;
    }
    assert(all.take(all.len() as int) =~= all);
    path
}

fn said_scanners(words: &Vec<StartupWord>) -> (r: (ScannerMode, UiScannerMode))
    ensures
        r.0 == scanner_said(words_view(words@)),
        r.1 == ui_scanner_said(words_view(words@)),
{
    let ghost all = words_view(words@);
    let mut mode = ScannerMode::Auto;
    let mut ui_mode = UiScannerMode::Auto;
    let mut i: usize = 0;
    while i < words.len()
        invariant
            i <= words@.len(),
            all == words_view(words@),
            mode == scanner_said(all.take(i as int)),
            ui_mode == ui_scanner_said(all.take(i as int)),
        decreases words@.len() - i,
    {
        proof {
            assert(all.take(i + 1).drop_last() =~= all.take(i as int));
            assert(all.take(i + 1).last() == words@[i as int]@);
        }
        if let StartupWord::Scanner(Some(name)) = &words[i] {
            mode = ScannerMode::parse(name);
            if let Some(known) = UiScannerMode::from_arg(name) {
                ui_mode = known;
            }
        }
        i += 1;
    }
    assert(all.take(all.len() as int) =~= all);
    (mode, ui_mode)
}

fn said_scan(words: &Vec<StartupWord>) -> (r: bool)
    ensures
        r == scan_said(words_view(words@)),
{
    let ghost all = words_view(words@);
    let mut i: usize = 0;
    while i < words.len()
        invariant
            i <= words@.len(),
            all == words_view(words@),
            forall|j: int| 0 <= j < i ==> #[trigger] all[j] != WordView::Scan,
        decreases words@.len() - i,
    {
        assert(all[i as int] == words@[i as int]@);
        if let StartupWord::Scan = &words[i] {
            return true;
        }
        i += 1;
    }
    false
}

/// What a command line asks for.
#[must_use]
pub fn parse_startup_args(args: &Vec<String>) -> (r: StartupArgs)
    ensures
        text_view(r.path) == path_said(words_of(strings_view(args@))),
        r.scanner == scanner_said(words_of(strings_view(args@))),
        r.scan == scan_said(words_of(strings_view(args@))),
{
    let words = startup_words(args);
    StartupArgs {
        path: said_path(&words),
        scanner: said_scanners(&words).0,
        scan: said_scan(&words),
    }
}

/// What a command line asks a window for; a scanner that it does not know is passed over.
#[must_use]
pub fn parse_ui_startup_args(args: &Vec<String>) -> (r: UiStartupArgs)
    ensures
        text_view(r.path) == path_said(words_of(strings_view(args@))),
        r.scanner_mode == ui_scanner_said(words_of(strings_view(args@))),
        r.scan == scan_said(words_of(strings_view(args@))),
{
    let words = startup_words(args);
    UiStartupArgs {
        path: said_path(&words),
        scanner_mode: said_scanners(&words).1,
        scan: said_scan(&words),
    }
}

/// What a window is started with: only an option names its path.
#[must_use]
pub fn native_startup(default_path: &str, args: &Vec<String>) -> (r: NativeStartup)
    ensures
        r.initial_path@ == match path_option_said(words_of(strings_view(args@))) {
            Some(path) => path,
            None => default_path@,
        },
        r.scanner_mode == ui_scanner_said(words_of(strings_view(args@))),
        r.start_on_launch == scan_said(words_of(strings_view(args@))),
{
    let words = startup_words(args);
    let initial_path = match said_path_option(&words) {
        Some(path) => path,
        None => default_path.to_owned(),
    };
    NativeStartup {
        initial_path,
        scanner_mode: said_scanners(&words).1,
        start_on_launch: said_scan(&words),
    }
}

/// What a window is told of how it was started.
#[derive(Debug)]
pub struct Startup {
    pub path: Option<String>,
    pub scanner: &'static str,
    pub scan: bool,
    pub elevated: bool,
}

/// What a window is told of how it was started: the path that was named or else the one to start
/// from, and a scan wherever there is a path.
#[must_use]
pub fn get_startup(
    startup: &StartupArgs,
    system_drive: Option<&str>,
    volumes: &Vec<VolumeShortcut>,
    elevated: Option<bool>,
) -> (r: Startup)
    ensures
        text_view(r.path) == match startup.path {
            Some(path) => Some(path@),
            None => startup_path(str_view(system_drive), volumes@),
        },
        r.scanner@ == scanner_name(startup.scanner),
        r.scan == (startup.scan || r.path is Some),
        r.elevated == (elevated == Some(true)),
{
    let path = match &startup.path {
        Some(path) => Some(copy_text(path)),
        None => default_startup_path(system_drive, volumes),
    };
    let scan = startup.scan || path.is_some();
    Startup {
        path,
        scanner: startup.scanner.as_str(),
        scan,
        elevated: match elevated {
            Some(elevated) => elevated,
            None => false,
        },
    }
}

// ---------------------------------------------------------------------------------------------
// How a scan goes about it
// ---------------------------------------------------------------------------------------------

/// Whether a scan has to run as administrator: any but one by traversal, on the root of a drive.
#[must_use]
pub fn scan_needs_elevation(path: &str, scanner: ScannerMode) -> (r: bool)
    ensures
        r == (scanner != ScannerMode::Fallback && drive_volume_spec(path@) is Some),
{
    match scanner {
        ScannerMode::Fallback => false,
        _ => drive_volume(path).is_some(),
    }
}

/// Whether a scan has to run as administrator: any but one by traversal, on the root of a drive.
#[must_use]
pub fn ui_scan_needs_elevation(path: &str, scanner_mode: UiScannerMode) -> (r: bool)
    ensures
        r == (scanner_mode != UiScannerMode::Fallback && drive_volume_spec(path@) is Some),
{
    match scanner_mode {
        UiScannerMode::Fallback => false,
        _ => drive_volume(path).is_some(),
    }
}

/// The command line that scans a path as administrator.
#[must_use]
pub fn elevated_scan_args(path: &str, scanner_mode: UiScannerMode) -> (r: Vec<String>)
    ensures
        strings_view(r@) == seq![
            "--path"@,
            path@,
            "--scanner"@,
            ui_scanner_name(scanner_mode),
            "--scan"@,
        ],
{
    let r: Vec<String> = vec![
        "--path".to_owned(),
        path.to_owned(),
        "--scanner".to_owned(),
        scanner_mode.arg_value().to_owned(),
        "--scan".to_owned(),
    ];
    assert(strings_view(r@) =~= seq![
        "--path"@,
        path@,
        "--scanner"@,
        ui_scanner_name(scanner_mode),
        "--scan"@,
    ]);
    r
}

/// A program that is started anew for a scan is asked for that scan.
pub proof fn an_elevated_scan_is_understood(path: Seq<char>, mode: UiScannerMode)
    ensures
        ({
            let words = words_of(
                seq!["--path"@, path, "--scanner"@, ui_scanner_name(mode), "--scan"@],
            );
            &&& path_said(words) == Some(path)
            &&& path_option_said(words) == Some(path)
            &&& ui_scanner_said(words) == mode
            &&& scan_said(words)
        }),
{
    reveal_strlit("--path");
    reveal_strlit("--scanner");
    reveal_strlit("--scan");
    let args = seq!["--path"@, path, "--scanner"@, ui_scanner_name(mode), "--scan"@];
    let last = seq!["--scan"@];
    let scanner = seq!["--scanner"@, ui_scanner_name(mode), "--scan"@];
    assert("--scanner"@.len() != "--path"@.len());
    assert("--scan"@[2] != "--path"@[2]);
    assert("--scanner"@.len() != "--scan"@.len());
    assert(args.skip(2) =~= scanner);
    assert(scanner.skip(2) =~= last);
    assert(last.skip(1) =~= Seq::<Seq<char>>::empty());
    assert(words_of(Seq::<Seq<char>>::empty()) =~= Seq::<WordView>::empty());
    assert(words_of(last) =~= seq![WordView::Scan]);
    assert(words_of(scanner) =~= seq![
        WordView::Scanner(Some(ui_scanner_name(mode))),
        WordView::Scan,
    ]);
    let words = words_of(args);
    let two = seq![
        WordView::Path(Some(path)),
        WordView::Scanner(Some(ui_scanner_name(mode))),
    ];
    let one = seq![WordView::Path(Some(path))];
    assert(words =~= two.push(WordView::Scan));
    assert(words.drop_last() =~= two);
    assert(two.drop_last() =~= one);
    assert(one.drop_last() =~= Seq::<WordView>::empty());
    assert(words[2] == WordView::Scan);
    a_scanner_is_found_again(mode);
    reveal_with_fuel(path_said, 4);
    reveal_with_fuel(path_option_said, 4);
    reveal_with_fuel(ui_scanner_said, 4);
}

/// What came of asking for administrator rights before a scan.
#[derive(Debug)]
pub enum ElevationAnswer {
    /// The scan goes on here.
    NotNeeded,
    /// The program is started anew as administrator, and scans there.
    Requested,
    /// It could not be found out, or not be asked for.
    Failed(String),
}

/// What is to be done about administrator rights before a scan.
#[derive(Debug)]
pub enum ElevationStep {
    /// The scan goes on here.
    Stay,
    /// The program is to be started anew as administrator, with these arguments.
    Relaunch(Vec<String>),
    /// It could not be found out whether the program runs as administrator.
    Fail(String),
}

/// What is to be done about administrator rights before a scan. It is only asked whether the program
/// runs as administrator where that matters; `elevated` is the answer.
#[must_use]
pub fn elevation_step(path: &str, scanner_mode: UiScannerMode, elevated: Result<bool, &str>) -> (r:
    ElevationStep)
    ensures
        ({
            let needed = scanner_mode != UiScannerMode::Fallback && drive_volume_spec(path@) is Some;
            match r {
                ElevationStep::Stay => !needed || elevated == Ok::<bool, &str>(true),
                ElevationStep::Relaunch(args) => {
                    &&& needed
                    &&& elevated == Ok::<bool, &str>(false)
                    &&& strings_view(args@) == seq![
                        "--path"@,
                        path@,
                        "--scanner"@,
                        ui_scanner_name(scanner_mode),
                        "--scan"@,
                    ]
                },
                ElevationStep::Fail(message) => {
                    &&& needed
                    &&& elevated matches Err(error) && message@
                        == "failed to check administrator elevation: "@ + error@
                },
            }
        }),
{
    if !ui_scan_needs_elevation(path, scanner_mode) {
        return ElevationStep::Stay;
    }
    match elevated {
        Ok(true) => ElevationStep::Stay,
        Ok(false) => ElevationStep::Relaunch(elevated_scan_args(path, scanner_mode)),
        Err(error) => {
            let mut message = "failed to check administrator elevation: ".to_owned();
            push_text(&mut message, error);
            ElevationStep::Fail(message)
        },
    }
}

/// What came of asking for administrator rights, once the program was to be started anew.
#[must_use]
pub fn relaunch_answer(outcome: Result<(), &str>) -> (r: ElevationAnswer)
    ensures
        match outcome {
            Ok(_) => r is Requested,
            Err(error) => r matches ElevationAnswer::Failed(message) && message@
                == "failed to request administrator access: "@ + error@,
        },
{
    match outcome {
        Ok(_) => ElevationAnswer::Requested,
        Err(error) => {
            let mut message = "failed to request administrator access: ".to_owned();
            push_text(&mut message, error);
            ElevationAnswer::Failed(message)
        },
    }
}

/// Whether the program is to be started anew as administrator before anything else: unless it runs as
/// administrator, that cannot be found out, or it was told not to.
#[must_use]
pub fn relaunch_at_startup(told_not_to: bool, elevated: Option<bool>) -> (r: bool)
    ensures
        r == (!told_not_to && elevated == Some(false)),
{
    match elevated {
        Some(elevated) => !told_not_to && !elevated,
        None => false,
    }
}

/// How a scan goes about it.
#[derive(Debug)]
pub struct ScanPlan {
    pub step: ScanStep,
    /// The volume that is read, where one is.
    pub volume: Option<String>,
    /// What is shown of the volume, where it is not shown whole.
    pub display_root: Option<String>,
}

/// What a plan says.
pub struct PlanView {
    pub step: ScanStep,
    pub volume: Option<Seq<char>>,
    pub display_root: Option<Seq<char>>,
}

impl View for ScanPlan {
    type V = PlanView;

    open spec fn view(&self) -> PlanView {
        PlanView {
            step: self.step,
            volume: text_view(self.volume),
            display_root: text_view(self.display_root),
        }
    }
}

/// The volume that a path names: its drive where it is the root of one, or else itself.
pub open spec fn volume_named(path: Seq<char>) -> Seq<char> {
    match drive_volume_spec(path) {
        Some(drive) => drive,
        None => path,
    }
}

fn named_volume(path: &str) -> (r: String)
    ensures
        r@ == volume_named(path@),
{
    match drive_volume(path) {
        Some(drive) => drive,
        None => path.to_owned(),
    }
}

/// How a scan goes about it: without a choice it reads the drive that the path lies on, and shows
/// what lies below the path.
pub open spec fn plan_of(path: Seq<char>, mode: ScannerMode) -> PlanView {
    match mode {
        ScannerMode::Fallback => PlanView {
            step: ScanStep::Traverse,
            volume: None,
            display_root: None,
        },
        ScannerMode::Ntfs => PlanView {
            step: ScanStep::ReadVolume,
            volume: Some(volume_named(path)),
            display_root: None,
        },
        ScannerMode::Auto => match drive_for_path_spec(path) {
            Some(drive) => PlanView {
                step: ScanStep::ReadVolumeOrTraverse,
                volume: Some(drive),
                display_root: if drive_volume_spec(path) is Some {
                    None
                } else {
                    Some(path)
                },
            },
            None => PlanView { step: ScanStep::Traverse, volume: None, display_root: None },
        },
    }
}

/// How a scan goes about it; see [`plan_of`].
#[must_use]
pub fn scan_plan(path: &str, mode: ScannerMode) -> (r: ScanPlan)
    ensures
        r@ == plan_of(path@, mode),
{
    match mode {
        ScannerMode::Fallback => ScanPlan {
            step: ScanStep::Traverse,
            volume: None,
            display_root: None,
        },
        ScannerMode::Ntfs => ScanPlan {
            step: ScanStep::ReadVolume,
            volume: Some(named_volume(path)),
            display_root: None,
        },
        ScannerMode::Auto => match drive_for_path(path) {
            Some(drive) => ScanPlan {
                step: ScanStep::ReadVolumeOrTraverse,
                volume: Some(drive),
                display_root: display_root_for_direct_scan(path),
            },
            None => ScanPlan { step: ScanStep::Traverse, volume: None, display_root: None },
        },
    }
}

/// How a scan goes about it: without a choice it reads a volume only where the path is the root of
/// a drive.
pub open spec fn ui_plan_of(path: Seq<char>, mode: UiScannerMode) -> PlanView {
    let step = match mode {
        UiScannerMode::Fallback => ScanStep::Traverse,
        UiScannerMode::Ntfs => ScanStep::ReadVolume,
        UiScannerMode::Auto => if drive_volume_spec(path) is Some {
            ScanStep::ReadVolumeOrTraverse
        } else {
            ScanStep::Traverse
        },
    };
    PlanView {
        step,
        volume: if step == ScanStep::Traverse {
            None
        } else {
            Some(volume_named(path))
        },
        display_root: None,
    }
}

/// How a scan goes about it; see [`ui_plan_of`].
#[must_use]
pub fn ui_scan_plan(path: &str, mode: UiScannerMode) -> (r: ScanPlan)
    ensures
        r@ == ui_plan_of(path@, mode),
{
    let step = match mode {
        UiScannerMode::Fallback => ScanStep::Traverse,
        UiScannerMode::Ntfs => ScanStep::ReadVolume,
        UiScannerMode::Auto => if drive_volume(path).is_some() {
            ScanStep::ReadVolumeOrTraverse
        } else {
            ScanStep::Traverse
        },
    };
    let volume = match step {
        ScanStep::Traverse => None,
        _ => Some(named_volume(path)),
    };
    ScanPlan { step, volume, display_root: None }
}

/// A path on a drive is read from that drive, whose letter is written as a capital, and only what
/// lies below the path is shown unless it is the root. A window reads a drive only where the path is
/// its root. Whoever asks for a traversal gets one, and no volume is read then.
pub proof fn a_scan_reads_the_drive_of_its_path(
    capital: char,
    letter: char,
    rest: Seq<char>,
    separators: Seq<char>,
)
    requires
        is_capital_of(capital, letter),
        all_separators(separators),
        rest.len() > 0 && !(rest.last() == '\\' || rest.last() == '/'),
    ensures
        ({
            let path = seq![letter, ':'] + rest;
            let plan = plan_of(path, ScannerMode::Auto);
            &&& plan.step == ScanStep::ReadVolumeOrTraverse
            &&& plan.volume == Some(seq![capital, ':'])
            &&& plan.display_root == Some(path)
            &&& ui_plan_of(path, UiScannerMode::Auto).step == ScanStep::Traverse
            &&& ui_plan_of(path, UiScannerMode::Auto).volume is None
            &&& plan_of(path, ScannerMode::Fallback).volume is None
            &&& plan_of(path, ScannerMode::Fallback).step == ScanStep::Traverse
            &&& ui_plan_of(path, UiScannerMode::Fallback).step == ScanStep::Traverse
        }),
        ({
            let path = seq![letter, ':'] + separators;
            let plan = plan_of(path, ScannerMode::Auto);
            let shown = ui_plan_of(path, UiScannerMode::Auto);
            &&& plan.step == ScanStep::ReadVolumeOrTraverse
            &&& plan.volume == Some(seq![capital, ':'])
            &&& plan.display_root is None
            &&& shown.step == ScanStep::ReadVolumeOrTraverse
            &&& shown.volume == Some(seq![capital, ':'])
            &&& plan_of(path, ScannerMode::Ntfs).step == ScanStep::ReadVolume
            &&& plan_of(path, ScannerMode::Ntfs).volume == Some(seq![capital, ':'])
            &&& ui_plan_of(path, UiScannerMode::Ntfs).volume == Some(seq![capital, ':'])
        }),
{
    a_drive_is_known_by_its_letter(capital, letter, rest, separators);
    a_drive_is_known_by_its_letter(capital, letter, separators, separators);
}

/// A plan names a volume exactly where it reads one.
pub proof fn a_plan_names_what_it_reads(path: Seq<char>, mode: ScannerMode, shown: UiScannerMode)
    ensures
        plan_of(path, mode).volume is Some <==> plan_of(path, mode).step != ScanStep::Traverse,
        ui_plan_of(path, shown).volume is Some <==> ui_plan_of(path, shown).step != ScanStep::Traverse,
        mode == ScannerMode::Ntfs ==> plan_of(path, mode).step == ScanStep::ReadVolume,
        mode == ScannerMode::Fallback ==> plan_of(path, mode).step == ScanStep::Traverse,
{
}

/// The last path that an option names counts, whatever stood before it, and so does the last scanner;
/// words that are neither leave them as they were.
pub proof fn the_last_option_counts(words: Seq<WordView>, path: Seq<char>, mode: UiScannerMode)
    ensures
        path_said(words.push(WordView::Path(Some(path)))) == Some(path),
        path_option_said(words.push(WordView::Path(Some(path)))) == Some(path),
        ui_scanner_said(words.push(WordView::Scanner(Some(ui_scanner_name(mode))))) == mode,
        path_said(words.push(WordView::Scanner(Some(path)))) == path_said(words),
        path_option_said(words.push(WordView::Scan)) == path_option_said(words),
        ui_scanner_said(words.push(WordView::Scan)) == ui_scanner_said(words),
        ui_scanner_said(words.push(WordView::Path(Some(path)))) == ui_scanner_said(words),
        scan_said(words.push(WordView::Scan)),
        scan_said(words.push(WordView::Path(Some(path)))) == scan_said(words),
{
    a_scanner_is_found_again(mode);
    let a = words.push(WordView::Path(Some(path)));
    let b = words.push(WordView::Scanner(Some(ui_scanner_name(mode))));
    let c = words.push(WordView::Scanner(Some(path)));
    let d = words.push(WordView::Scan);
    assert(a.drop_last() =~= words);
    assert(b.drop_last() =~= words);
    assert(c.drop_last() =~= words);
    assert(d.drop_last() =~= words);
    assert(d[words.len() as int] == WordView::Scan);
    if scan_said(words) {
        let k = choose|k: int| 0 <= k < words.len() && words[k] == WordView::Scan;
        assert(a[k] == WordView::Scan);
    }
    if scan_said(a) {
        let k = choose|k: int| 0 <= k < a.len() && a[k] == WordView::Scan;
        assert(words[k] == WordView::Scan);
    }
}

} // verus!
