//! What the outcome of an operation on the file system, or of the script
//! itself, means to the runner.

use vstd::prelude::*;

use crate::text::{decimal_text, same_text};
#[allow(unused_imports)]
use crate::text::{decimal, opt_str};

verus! {

/// The kinds of errors that the runner tells apart.
#[derive(Clone, Copy, Debug, PartialEq, Eq, Structural)]
pub enum IoErrorKind {
    AlreadyExists,
    Other,
}

/// An error of an operation on the file system, with the text that describes
/// it.
#[derive(Debug, PartialEq, Eq)]
pub struct IoError {
    pub kind: IoErrorKind,
    pub message: String,
}

/// Takes an error that says that something is already there for success, and
/// hands back any other.
pub fn swallow_already_exists(err: IoError) -> (r: Result<(), IoError>)
    ensures
        r == (if err.kind == IoErrorKind::AlreadyExists {
            Ok::<(), IoError>(())
        } else {
            Err::<(), IoError>(err)
        }),
{
    if err.kind == IoErrorKind::AlreadyExists {
        Ok(())
    } else {
        Err(err)
    }
}

/// The outcome of creating a symbolic link that may already be there.
pub fn symlink_if_not_exists(created: Result<(), IoError>) -> (r: Result<(), String>)
    ensures
        match created {
            Ok(()) => r is Ok,
            Err(err) => {
                &&& r is Ok <==> err.kind == IoErrorKind::AlreadyExists
                &&& r matches Err(message) ==> message@ == "Failed to create symlink: "@
                    + err.message@
            },
        },
{
    match created {
        Ok(()) => Ok(()),
        Err(err) => match swallow_already_exists(err) {
            Ok(()) => Ok(()),
            Err(err) => {
                let mut message = String::new();
                message.append("Failed to create symlink: ");
                let ghost start = message@;
                message.append(err.message.as_str());
                assert(start =~= "Failed to create symlink: "@);
                Err(message)
            },
        },
    }
}

/// Whether the contents of the execution root are to be linked into the
/// package's directory: where the setting is there and says `1`.
pub fn should_symlink_exec_root(setting: Option<&str>) -> (r: bool)
    ensures
        r == (opt_str(setting) == Some("1"@)),
{
    match setting {
        Some(value) => same_text(value, "1"),
        None => false,
    }
}

/// What is reported of a script that failed: its exit code, where it has one,
/// and what it wrote.
pub open spec fn failure_report(
    exit_code: Option<i32>,
    stdout: Seq<char>,
    stderr: Seq<char>,
) -> Seq<char> {
    "Build script process failed"@ + (match exit_code {
        Some(code) => " with exit code "@ + decimal(code as int),
        None => Seq::empty(),
    }) + "\n--stdout:\n"@ + stdout + "\n--stderr:\n"@ + stderr
}

/// Reports a script that failed.
pub fn script_failure(exit_code: Option<i32>, stdout: &str, stderr: &str) -> (r: String)
    ensures
        r@ == failure_report(exit_code, stdout@, stderr@),
{
    let mut out = String::new();
    out.append("Build script process failed");
    if let Some(code) = exit_code {
        out.append(" with exit code ");
        out.append(decimal_text(code).as_str());
    }
    out.append("\n--stdout:\n");
    out.append(stdout);
    out.append("\n--stderr:\n");
    out.append(stderr);
    assert(out@ =~= failure_report(exit_code, stdout@, stderr@));
    out
}

} // verus!
