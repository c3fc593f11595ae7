//! Scans that a scheduled task runs as administrator: requests, and the commands that set the task
//! up.

use vstd::prelude::*;

use crate::numbers::{decimal, decimal_reads_back, is_digit, push_decimal};
use crate::targets::{normalized_path_key, path_key};
use crate::text::{a_text_is_split_at_each_place, chars_of, is_separator_spec, is_white_space_spec,
    push_text, same_text, split_by, strings_view, trim, trim_end_by, trim_separators, trim_spec,
    trim_start_by};
use crate::winpath::{behind_prefix, has_two_separators, is_bare_server, is_plain_name, is_verbatim,
    is_verbatim_share, join, join_path, join_then_split, join_to_a_prefix, joining_tidies,
    lemma_ends_in_name, lemma_join_plain, lemma_part_ends, lemma_prefix_fits, parent, parent_spec,
    part_end, path_body, prefix_len, tidied, without_tail};

verus! {

/// The name of the scheduled task.
pub const ELEVATED_SCAN_TASK_NAME: &'static str = "DiskLoomElevatedScan";

/// A request to scan a path, and where the answer goes.
#[derive(Debug, Clone)]
pub struct ElevatedScanRequest {
    pub nonce: String,
    pub path: String,
    pub snapshot_path: String,
    pub error_path: String,
}

/// Why the task did not do its work.
#[derive(Debug, PartialEq, Eq)]
pub enum ScanBrokerError {
    /// A command for the task failed; this is what it said.
    CommandFailed(String),
    /// The answer would go somewhere else than into the directory for it.
    InvalidOutputPath,
    /// There are no scheduled tasks on this platform.
    UnsupportedPlatform,
}

/// What went wrong.
pub open spec fn broker_error_text(error: ScanBrokerError) -> Seq<char> {
    match error {
        ScanBrokerError::CommandFailed(message) => "scheduled task command failed: "@ + message@,
        ScanBrokerError::InvalidOutputPath =>
            "broker output paths are outside the DiskLoom broker directory"@,
        ScanBrokerError::UnsupportedPlatform =>
            "administrator scan task is only available on Windows"@,
    }
}

impl ScanBrokerError {
    /// What went wrong.
    #[must_use]
    pub fn describe(&self) -> (r: String)
        ensures
            r@ == broker_error_text(*self),
    {
        match self {
            ScanBrokerError::CommandFailed(message) => {
                let mut r = "scheduled task command failed: ".to_owned();
                push_text(&mut r, message);
                r
            },
            ScanBrokerError::InvalidOutputPath =>
                "broker output paths are outside the DiskLoom broker directory".to_owned(),
            ScanBrokerError::UnsupportedPlatform =>
                "administrator scan task is only available on Windows".to_owned(),
        }
    }
}

/// The directory for requests and answers, below the directory for the data of applications.
pub open spec fn broker_dir(base: Seq<char>) -> Seq<char> {
    join_path(join_path(base, "DiskLoom"@), "Broker"@)
}

/// The directory for requests and answers, below the directory for the data of applications.
#[must_use]
pub fn elevated_scan_dir(base: &str) -> (r: String)
    ensures
        r@ == broker_dir(base@),
{
    join(&join(base, "DiskLoom"), "Broker")
}

/// The path of the request.
#[must_use]
pub fn elevated_scan_request_path(dir: &str) -> (r: String)
    ensures
        r@ == join_path(dir@, "request.json"@),
{
    join(dir, "request.json")
}

/// What sets a request apart: the number of the process and the time in milliseconds.
pub open spec fn nonce_of(process: nat, millis: nat) -> Seq<char> {
    decimal(process) + "-"@ + decimal(millis)
}

/// What sets a request apart: the number of the process and the time in milliseconds.
#[must_use]
pub fn request_nonce(process: u32, millis: u128) -> (r: String)
    ensures
        r@ == nonce_of(process as nat, millis as nat),
{
    let mut r = String::new();
    push_decimal(&mut r, process as u128);
    push_text(&mut r, "-");
    push_decimal(&mut r, millis);
    assert(r@ =~= nonce_of(process as nat, millis as nat));
    r
}

fn with_suffix(name: &str, suffix: &str) -> (r: String)
    ensures
        r@ == name@ + suffix@,
{
    let mut r = name.to_owned();
    push_text(&mut r, suffix);
    r
}

impl ElevatedScanRequest {
    /// A request to scan `path`, with the answer in `dir`.
    #[must_use]
    pub fn new(path: &str, dir: &str, nonce: &str) -> (r: Self)
        ensures
            r.nonce@ == nonce@,
            r.path@ == path@,
            r.snapshot_path@ == join_path(dir@, nonce@ + ".dlsnap"@),
            r.error_path@ == join_path(dir@, nonce@ + ".err"@),
    {
        ElevatedScanRequest {
            snapshot_path: join(dir, &with_suffix(nonce, ".dlsnap")),
            error_path: join(dir, &with_suffix(nonce, ".err")),
            nonce: nonce.to_owned(),
            path: path.to_owned(),
        }
    }
}

/// Whether a path leads to something right in a directory, whatever the case of ASCII letters.
pub open spec fn lies_in(path: Seq<char>, dir: Seq<char>) -> bool {
    parent_spec(path) matches Some(holder) && path_key(holder) == path_key(dir)
}

/// Whether a path leads to something right in a directory, whatever the case of ASCII letters.
#[must_use]
pub fn is_direct_child_of(path: &str, dir: &str) -> (r: bool)
    ensures
        r == lies_in(path@, dir@),
{
    match parent(path) {
        Some(holder) => {
            let own = normalized_path_key(&holder);
            let wanted = normalized_path_key(dir);
            same_text(&own, &wanted)
        },
        None => false,
    }
}

/// Accepts a request whose answer goes into the directory for it.
pub fn validate_elevated_scan_output_paths(request: &ElevatedScanRequest, dir: &str) -> (r: Result<
    (),
    ScanBrokerError,
>)
    ensures
        r == if lies_in(request.snapshot_path@, dir@) && lies_in(request.error_path@, dir@) {
            Ok::<(), ScanBrokerError>(())
        } else {
            Err(ScanBrokerError::InvalidOutputPath)
        },
{
    if is_direct_child_of(&request.snapshot_path, dir) && is_direct_child_of(
        &request.error_path,
        dir,
    ) {
        Ok(())
    } else {
        Err(ScanBrokerError::InvalidOutputPath)
    }
}

/// Whether the text can be part of a file name.
spec fn is_plain(name: Seq<char>) -> bool {
    forall|i: int| 0 <= i < name.len() ==> !is_separator_spec(#[trigger] name[i]) && name[i] != ':'
}

/// What is known of the directory above: it ends in its name, and is written as it is joined to.
proof fn lemma_holder(base: Seq<char>)
    ensures
        ({
            let holder = join_path(base, "DiskLoom"@);
            &&& holder.len() >= 8
            &&& holder.last() == 'm'
            &&& tidied(holder) == holder
        }),
{
    reveal_strlit("DiskLoom");
    let first = "DiskLoom"@;
    let holder = join_path(base, first);
    assert(first.len() == 8 && first[0] == 'D' && first[1] == 'i' && first[7] == 'm');
    assert(prefix_len(first) == 0);
    if is_verbatim(base) {
        joining_tidies(base, first);
        lemma_ends_in_name(base, first);
    } else {
        assert(holder.last() == first[7]);
        if is_verbatim(holder) {
            if base.len() >= 4 {
                assert(forall|i: int| 0 <= i < 4 ==> holder[i] == base[i]);
            }
            assert(base.len() == 3) by {
                if base.len() < 3 {
                    assert(holder[2] == base.push('\\')[2] || holder[2] == first[2 - base.len()]
                        || holder[2] == first[1 - base.len()]);
                }
            }
            assert(holder[4] == first[0] && holder[5] == first[1]);
            assert(prefix_len(holder) == holder.len()) by {
                assert(holder =~= base.push('\\') + first);
                assert(forall|i: int| 0 <= i < 8 ==> first[i] == #[trigger] holder[i + 4]);
                reveal_with_fuel(part_end, 10);
            }
            assert(holder.take(holder.len() as int) =~= holder);
        }
    }
}

/// What is known of the directory: it ends in a component behind a separator.
proof fn lemma_broker_dir(base: Seq<char>)
    ensures
        ({
            let dir = broker_dir(base);
            let at = dir.len() - 7;
            &&& at >= 8
            &&& dir[at] == '\\'
            &&& dir.last() == 'r'
            &&& dir[dir.len() - 2] == 'e'
            &&& !is_bare_server(dir)
            &&& 0 <= prefix_len(dir) <= dir.len()
            &&& tidied(dir) == dir
            &&& prefix_len(dir) < dir.len() ==> behind_prefix(dir) == path_body(dir)
            &&& prefix_len(dir) == dir.len() ==> has_two_separators(dir)
        }),
{
    reveal_strlit("DiskLoom");
    reveal_strlit("Broker");
    let first = "DiskLoom"@;
    let name = "Broker"@;
    let holder = join_path(base, first);
    let dir = broker_dir(base);
    assert(first[0] == 'D' && first[1] == 'i' && first[7] == 'm');
    assert(name[0] == 'B' && name[1] == 'r' && name[4] == 'e' && name[5] == 'r');
    assert(is_plain_name(first)) by {
        assert(first.len() == 8);
    }
    assert(is_plain_name(name)) by {
        assert(name.len() == 6);
    }
    lemma_holder(base);
    lemma_join_plain(holder, name);
    assert(dir == holder.push('\\') + name);
    assert(tidied(dir) == dir) by {
        if is_verbatim(holder) {
            joining_tidies(holder, name);
        } else {
            assert(forall|i: int| 0 <= i < 4 ==> dir[i] == holder[i]);
        }
    }
    let at = dir.len() - 7;
    assert(dir[at] == '\\');
    assert(dir.last() == name[5]);
    assert(dir[dir.len() - 2] == name[4]);
    lemma_prefix_fits(dir);
    if is_verbatim_share(dir) {
        lemma_part_ends(dir, 8, true, at);
    }
    lemma_part_ends(dir, 2, false, at);
    let body = behind_prefix(dir);
    if prefix_len(dir) < dir.len() {
        assert(dir.skip(prefix_len(dir)).last() == dir.last());
        assert(body.last() == dir.last());
        assert(body.len() > 2 ==> body[body.len() - 2] == dir[dir.len() - 2]);
        assert(without_tail(body, is_verbatim(dir)) == body);
    }
}

/// A text that neither begins nor ends in white space stays when that is taken off.
proof fn lemma_nothing_to_trim(text: Seq<char>)
    requires
        text.len() > 0,
        !is_white_space_spec(text[0]),
        !is_white_space_spec(text.last()),
    ensures
        trim_spec(text) == text,
{
    let white = |c: char| is_white_space_spec(c);
    assert(trim_start_by(text, white) == text);
    assert(trim_end_by(text, white) == text);
}

/// Behind a separator at its end, a path is compared as without it.
proof fn lemma_same_key(dir: Seq<char>)
    requires
        dir.len() > 0,
        is_separator_spec(dir[0]),
        dir.last() == 'r',
    ensures
        path_key(dir.push('\\')) == path_key(dir),
{
    lemma_nothing_to_trim(dir);
    lemma_nothing_to_trim(dir.push('\\'));
    assert(dir.push('\\').drop_last() =~= dir);
    assert(trim_separators(dir.push('\\')) == trim_separators(dir));
}

proof fn lemma_request_path(base: Seq<char>, nonce: Seq<char>, suffix: Seq<char>)
    requires
        is_plain(nonce),
        is_plain(suffix),
        suffix.len() > 2,
    ensures
        lies_in(join_path(broker_dir(base), nonce + suffix), broker_dir(base)),
{
    let name = nonce + suffix;
    let dir = broker_dir(base);
    lemma_broker_dir(base);
    assert forall|i: int| 0 <= i < name.len() implies !is_separator_spec(#[trigger] name[i]) && name[i]
        != ':' by {
        if i < nonce.len() {
            assert(name[i] == nonce[i]);
        } else {
            assert(name[i] == suffix[i - nonce.len()]);
        }
    }
    assert(name.len() > 2);
    assert(is_plain_name(name));
    if prefix_len(dir) < dir.len() {
        join_then_split(dir, name);
    } else {
        join_to_a_prefix(dir, name);
        lemma_same_key(dir);
    }
}

proof fn lemma_digits_are_plain(n: nat)
    ensures
        is_plain(decimal(n)),
    decreases n,
{
    if n >= 10 {
        lemma_digits_are_plain(n / 10);
    }
}

/// A request that is made for the directory is accepted there.
pub proof fn own_requests_are_accepted(base: Seq<char>, process: nat, millis: nat)
    ensures
        lies_in(
            join_path(broker_dir(base), nonce_of(process, millis) + ".dlsnap"@),
            broker_dir(base),
        ),
        lies_in(join_path(broker_dir(base), nonce_of(process, millis) + ".err"@), broker_dir(base)),
{
    reveal_strlit(".dlsnap");
    reveal_strlit(".err");
    reveal_strlit("-");
    lemma_digits_are_plain(process);
    lemma_digits_are_plain(millis);
    let nonce = nonce_of(process, millis);
    assert(is_plain(nonce)) by {
        assert forall|i: int| 0 <= i < nonce.len() implies !is_separator_spec(#[trigger] nonce[i])
            && nonce[i] != ':' by {
            let first = decimal(process);
            let second = decimal(millis);
            if i < first.len() {
                assert(nonce[i] == first[i]);
            } else if i > first.len() {
                assert(nonce[i] == second[i - first.len() - 1]);
            }
        }
    }
    lemma_request_path(base, nonce, ".dlsnap"@);
    lemma_request_path(base, nonce, ".err"@);
}

// ---------------------------------------------------------------------------------------------
// The task
// ---------------------------------------------------------------------------------------------

/// What the task runs.
pub open spec fn task_action(worker: Seq<char>) -> Seq<char> {
    "\""@ + worker + "\" --broker-worker"@
}

/// The arguments that set the task up to run the program `worker_exe`.
#[must_use]
pub fn register_elevated_scan_task(worker_exe: &str) -> (r: Vec<String>)
    ensures
        strings_view(r@) == seq![
            "/Create"@,
            "/TN"@,
            ELEVATED_SCAN_TASK_NAME@,
            "/TR"@,
            task_action(worker_exe@),
            "/SC"@,
            "ONCE"@,
            "/ST"@,
            "00:00"@,
            "/RL"@,
            "HIGHEST"@,
            "/F"@,
        ],
{
    let mut action = "\"".to_owned();
    push_text(&mut action, worker_exe);
    push_text(&mut action, "\" --broker-worker");
    let mut args: Vec<String> = Vec::new();
    args.push("/Create".to_owned());
    args.push("/TN".to_owned());
    args.push(ELEVATED_SCAN_TASK_NAME.to_owned());
    args.push("/TR".to_owned());
    args.push(action);
    args.push("/SC".to_owned());
    args.push("ONCE".to_owned());
    args.push("/ST".to_owned());
    args.push("00:00".to_owned());
    args.push("/RL".to_owned());
    args.push("HIGHEST".to_owned());
    args.push("/F".to_owned());
    assert(action@ =~= task_action(worker_exe@));
    assert(strings_view(args@) =~= seq![
        "/Create"@,
        "/TN"@,
        ELEVATED_SCAN_TASK_NAME@,
        "/TR"@,
        task_action(worker_exe@),
        "/SC"@,
        "ONCE"@,
        "/ST"@,
        "00:00"@,
        "/RL"@,
        "HIGHEST"@,
        "/F"@,
    ]);
    args
}

/// The arguments that take the task away.
#[must_use]
pub fn unregister_elevated_scan_task() -> (r: Vec<String>)
    ensures
        strings_view(r@) == seq!["/Delete"@, "/TN"@, ELEVATED_SCAN_TASK_NAME@, "/F"@],
{
    let mut args: Vec<String> = Vec::new();
    args.push("/Delete".to_owned());
    args.push("/TN".to_owned());
    args.push(ELEVATED_SCAN_TASK_NAME.to_owned());
    args.push("/F".to_owned());
    assert(strings_view(args@) =~= seq!["/Delete"@, "/TN"@, ELEVATED_SCAN_TASK_NAME@, "/F"@]);
    args
}

/// The arguments that run the task.
#[must_use]
pub fn run_elevated_scan_task() -> (r: Vec<String>)
    ensures
        strings_view(r@) == seq!["/Run"@, "/TN"@, ELEVATED_SCAN_TASK_NAME@],
{
    let mut args: Vec<String> = Vec::new();
    args.push("/Run".to_owned());
    args.push("/TN".to_owned());
    args.push(ELEVATED_SCAN_TASK_NAME.to_owned());
    assert(strings_view(args@) =~= seq!["/Run"@, "/TN"@, ELEVATED_SCAN_TASK_NAME@]);
    args
}

/// What a failed command said: what it wrote as an error, or else what it wrote.
pub open spec fn command_message(stdout: Seq<char>, stderr: Seq<char>) -> Seq<char> {
    if trim_spec(stderr).len() == 0 {
        trim_spec(stdout)
    } else {
        trim_spec(stderr)
    }
}

/// Whether a command for the task succeeded, and what it said where it did not; no status where
/// there is nothing to run it.
pub fn schtasks_outcome(success: Option<bool>, stdout: &str, stderr: &str) -> (r: Result<
    (),
    ScanBrokerError,
>)
    ensures
        match success {
            Some(true) => r == Ok::<(), ScanBrokerError>(()),
            Some(false) => r matches Err(ScanBrokerError::CommandFailed(message)) && message@
                == command_message(stdout@, stderr@),
            None => r == Err::<(), ScanBrokerError>(ScanBrokerError::UnsupportedPlatform),
        },
{
    match success {
        Some(true) => Ok(()),
        Some(false) => {
            let errors = trim(stderr);
            if chars_of(&errors).len() == 0 {
                Err(ScanBrokerError::CommandFailed(trim(stdout)))
            } else {
                Err(ScanBrokerError::CommandFailed(errors))
            }
        },
        None => Err(ScanBrokerError::UnsupportedPlatform),
    }
}

/// A request whose answer would go anywhere but right into the directory is refused: into another
/// directory, or into one below it.
pub proof fn answers_elsewhere_are_refused(dir: Seq<char>, other: Seq<char>, name: Seq<char>)
    requires
        other.len() > prefix_len(other),
        behind_prefix(other) == path_body(other),
        tidied(other) == other,
        !is_bare_server(other),
        is_plain_name(name),
        path_key(other) != path_key(dir),
    ensures
        !lies_in(join_path(other, name), dir),
        lies_in(join_path(other, name), other),
{
    join_then_split(other, name);
}

proof fn lemma_no_dash(n: nat)
    ensures
        !decimal(n).contains('-'),
{
    decimal_reads_back(n);
    let s = decimal(n);
    if s.contains('-') {
        let k = choose|k: int| 0 <= k < s.len() && s[k] == '-';
        assert(is_digit(s[k]));
    }
}

/// Requests of different processes, and requests at different times, are set apart.
pub proof fn requests_are_set_apart(process: nat, millis: nat, other: nat, later: nat)
    requires
        nonce_of(process, millis) == nonce_of(other, later),
    ensures
        process == other,
        millis == later,
{
    reveal_strlit("-");
    let a = decimal(process);
    let b = decimal(millis);
    let c = decimal(other);
    let d = decimal(later);
    let text = nonce_of(process, millis);
    lemma_no_dash(process);
    lemma_no_dash(other);
    assert(text =~= a + seq!['-'] + b);
    assert(text =~= c + seq!['-'] + d);
    a_text_is_split_at_each_place(a, '-', b);
    a_text_is_split_at_each_place(c, '-', d);
    let parts = split_by(text, '-');
    assert(parts[0] == a && parts[0] == c);
    assert(text.skip(a.len() as int + 1) =~= b);
    assert(text.skip(c.len() as int + 1) =~= d);
    decimal_reads_back(process);
    decimal_reads_back(millis);
    decimal_reads_back(other);
    decimal_reads_back(later);
}

} // verus!
