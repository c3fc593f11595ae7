//! What is handed to the shell, and what it answers.

use vstd::prelude::*;

use crate::numbers::{decimal_int, push_decimal_int};
use crate::text::{encode_utf16, push_text, utf16_units};

verus! {

/// Why an action of the shell failed.
#[derive(Debug, Clone, Copy, PartialEq, Eq, Structural)]
pub enum ShellActionError {
    /// There is no Windows shell on this platform.
    UnsupportedPlatform,
    /// The shell did not carry out a command.
    ShellExecuteFailed(i64),
    /// The shell did not carry out a file operation.
    FileOperationFailed(i32),
}

impl ShellActionError {
    /// What the error is called.
    pub open spec fn text(self) -> Seq<char> {
        match self {
            ShellActionError::UnsupportedPlatform =>
                "Windows shell action is only supported on Windows"@,
            ShellActionError::ShellExecuteFailed(code) => "ShellExecuteW failed with code "@
                + decimal_int(code as int),
            ShellActionError::FileOperationFailed(code) => "SHFileOperationW failed with code "@
                + decimal_int(code as int),
        }
    }

    /// What went wrong.
    #[must_use]
    pub fn describe(self) -> (r: String)
        ensures
            r@ == self.text(),
    {
        match self {
            ShellActionError::UnsupportedPlatform =>
                "Windows shell action is only supported on Windows".to_owned(),
            ShellActionError::ShellExecuteFailed(code) => {
                let mut r = "ShellExecuteW failed with code ".to_owned();
                push_decimal_int(&mut r, code);
                r
            },
            ShellActionError::FileOperationFailed(code) => {
                let mut r = "SHFileOperationW failed with code ".to_owned();
                push_decimal_int(&mut r, code as i64);
                r
            },
        }
    }
}

/// What Explorer is opened with: a directory itself, or the command to select anything else.
#[must_use]
pub fn explorer_argument(path: &str, is_directory: bool) -> (r: String)
    ensures
        r@ == if is_directory {
            path@
        } else {
            "/select,"@ + path@
        },
{
    if is_directory {
        return path.to_owned();
    }
    let mut r = "/select,".to_owned();
    push_text(&mut r, path);
    r
}

/// Whether the properties of a file were shown: the code of the failure, where the shell failed, or
/// nothing, where there is no shell to ask.
pub fn show_properties(outcome: Option<Result<(), i64>>) -> (r: Result<(), ShellActionError>)
    ensures
        r == match outcome {
            Some(Ok(())) => Ok::<(), ShellActionError>(()),
            Some(Err(code)) => Err(ShellActionError::ShellExecuteFailed(code)),
            None => Err(ShellActionError::UnsupportedPlatform),
        },
{
    match outcome {
        Some(Ok(())) => Ok(()),
        Some(Err(code)) => Err(ShellActionError::ShellExecuteFailed(code)),
        None => Err(ShellActionError::UnsupportedPlatform),
    }
}

/// Whether a file was moved to the recycle bin: the shell answers zero where it was, and nothing is
/// answered where there is no shell.
pub fn recycle_delete(code: Option<i32>) -> (r: Result<(), ShellActionError>)
    ensures
        r == match code {
            Some(n) => if n != 0 {
                Err::<(), ShellActionError>(ShellActionError::FileOperationFailed(n))
            } else {
                Ok(())
            },
            None => Err(ShellActionError::UnsupportedPlatform),
        },
{
    match code {
        Some(n) => if n != 0 {
            Err(ShellActionError::FileOperationFailed(n))
        } else {
            Ok(())
        },
        None => Err(ShellActionError::UnsupportedPlatform),
    }
}

/// A list of paths with this one in it, as file operations take it: every path is ended by a zero,
/// and the list by another.
#[must_use]
pub fn double_null_terminated_path(path: &str) -> (r: Vec<u16>)
    ensures
        r@ == utf16_units(path@).push(0).push(0),
{
    let mut units = encode_utf16(path);
    units.push(0);
    units.push(0);
    units
}

} // verus!
