//! The errors every command can end in, their messages and exit codes.

use vstd::prelude::*;

use crate::text::{concat_str, push_decimal, string_of, usize_decimal};

verus! {

/// File system errors are carried through unchanged.
#[verifier::external_type_specification]
#[verifier::external_body]
pub struct ExIoError(std::io::Error);

/// Paths are carried through unchanged.
#[verifier::external_type_specification]
#[verifier::external_body]
pub struct ExPathBuf(std::path::PathBuf);

/// JSON errors are carried through unchanged.
#[verifier::external_type_specification]
#[verifier::external_body]
pub struct ExJsonError(serde_json::Error);

/// Everything that can go wrong in a command.
#[derive(Debug)]
pub enum WorkspaceError {
    UnsupportedPlatform,
    InvalidName(String),
    NotFound(String),
    AlreadyExists(String),
    CreateDataDir { path: std::path::PathBuf, source: std::io::Error },
    ReadFile { path: std::path::PathBuf, source: std::io::Error },
    WriteFile { path: std::path::PathBuf, source: std::io::Error },
    DeleteFile { path: std::path::PathBuf, source: std::io::Error },
    ParseSnapshot { path: std::path::PathBuf, source: serde_json::Error },
    EncodeSnapshot(serde_json::Error),
    /// A snapshot written by a newer schema than this build reads.
    UnsupportedSnapshotVersion { name: String, found: u32, supported: u32 },
    Interaction(String),
    MacOs(String),
    AccessibilityPermissionRequired,
    /// Some self-checks did not pass.
    SelftestFailed { failed: usize, total: usize },
}

/// The process exit code of an error.
pub open spec fn spec_exit_code(e: WorkspaceError) -> u8 {
    match e {
        WorkspaceError::InvalidName(_) => 2,
        WorkspaceError::NotFound(_) => 3,
        WorkspaceError::AlreadyExists(_) => 4,
        WorkspaceError::AccessibilityPermissionRequired => 5,
        WorkspaceError::UnsupportedPlatform => 6,
        WorkspaceError::UnsupportedSnapshotVersion { .. } => 7,
        _ => 1,
    }
}

/// The message of an error that carries no outside value.
pub open spec fn spec_plain_message(e: WorkspaceError) -> Option<Seq<char>> {
    match e {
        WorkspaceError::UnsupportedPlatform => Some("this command is only supported on macOS"@),
        WorkspaceError::InvalidName(n) => Some(
            "invalid workspace name '"@ + n@
                + "'; use letters, numbers, dots, dashes, and underscores"@,
        ),
        WorkspaceError::NotFound(n) => Some("workspace '"@ + n@ + "' was not found"@),
        WorkspaceError::AlreadyExists(n) => Some(
            "workspace '"@ + n@ + "' already exists; pass --force to overwrite"@,
        ),
        WorkspaceError::UnsupportedSnapshotVersion { name, found, supported } => Some(
            "workspace '"@ + name@ + "' uses snapshot schema version "@ + crate::text::decimal(
                found as nat,
            ) + ", but this build reads versions up to "@ + crate::text::decimal(supported as nat),
        ),
        WorkspaceError::Interaction(m) => Some("interactive configuration failed: "@ + m@),
        WorkspaceError::MacOs(m) => Some("macOS API call failed: "@ + m@),
        WorkspaceError::AccessibilityPermissionRequired => Some(
            "Accessibility permission is required to restore windows. Grant access in System Settings > Privacy & Security > Accessibility, then rerun restore."@,
        ),
        WorkspaceError::SelftestFailed { failed, total } => Some(
            crate::text::decimal(failed as nat) + " of "@ + crate::text::decimal(total as nat)
                + " self-checks failed"@,
        ),
        _ => None,
    }
}

/// The fixed opening of the message of an error that carries a path.
pub open spec fn spec_message_prefix(e: WorkspaceError) -> Seq<char> {
    match e {
        WorkspaceError::CreateDataDir { .. } => "could not create workspace data directory at "@,
        WorkspaceError::ReadFile { .. } => "could not read "@,
        WorkspaceError::WriteFile { .. } => "could not write "@,
        WorkspaceError::DeleteFile { .. } => "could not delete "@,
        WorkspaceError::ParseSnapshot { .. } => "could not parse snapshot JSON at "@,
        WorkspaceError::EncodeSnapshot(_) => "could not encode snapshot JSON: "@,
        _ => seq![],
    }
}

/// How `std::path::Path::display` shows a path. Nothing is stated of the
/// text: it is only shown to the user.
#[verifier::external_body]
fn path_text(path: &std::path::PathBuf) -> (r: String) {
    path.display().to_string()
}

/// The `Display` text of an I/O error, which comes from the operating
/// system; nothing is stated of it.
#[verifier::external_body]
fn io_error_text(e: &std::io::Error) -> (r: String) {
    e.to_string()
}

/// The `Display` text of a `serde_json` error; nothing is stated of it.
#[verifier::external_body]
fn json_error_text(e: &serde_json::Error) -> (r: String) {
    e.to_string()
}

fn with_source(prefix: &str, path: &std::path::PathBuf, source: String) -> (r: String)
    ensures
        r@.len() >= prefix@.len(),
        r@.subrange(0, prefix@.len() as int) == prefix@,
{
    let mut s = concat_str(prefix, path_text(path).as_str());
    s = concat_str(s.as_str(), ": ");
    let out = concat_str(s.as_str(), source.as_str());
    proof {
        assert(out@.subrange(0, prefix@.len() as int) =~= prefix@);
    }
    out
}

impl WorkspaceError {
    /// The process exit code for this error.
    pub fn exit_code(&self) -> (r: u8)
        ensures
            r == spec_exit_code(*self),
    {
        match self {
            WorkspaceError::InvalidName(_) => 2,
            WorkspaceError::NotFound(_) => 3,
            WorkspaceError::AlreadyExists(_) => 4,
            WorkspaceError::AccessibilityPermissionRequired => 5,
            WorkspaceError::UnsupportedPlatform => 6,
            WorkspaceError::UnsupportedSnapshotVersion { .. } => 7,
            _ => 1,
        }
    }

    /// The message shown to the user.
    pub fn message(&self) -> (r: String)
        ensures
            spec_plain_message(*self) matches Some(m) ==> r@ == m,
            spec_plain_message(*self) is None ==> r@.len() >= spec_message_prefix(*self).len()
                && r@.subrange(0, spec_message_prefix(*self).len() as int) == spec_message_prefix(
                *self,
            ),
    {
        match self {
            WorkspaceError::UnsupportedPlatform => string_of("this command is only supported on macOS"),
            WorkspaceError::InvalidName(n) => {
                let s = concat_str("invalid workspace name '", n.as_str());
                concat_str(s.as_str(), "'; use letters, numbers, dots, dashes, and underscores")
            },
            WorkspaceError::NotFound(n) => {
                let s = concat_str("workspace '", n.as_str());
                concat_str(s.as_str(), "' was not found")
            },
            WorkspaceError::AlreadyExists(n) => {
                let s = concat_str("workspace '", n.as_str());
                concat_str(s.as_str(), "' already exists; pass --force to overwrite")
            },
            WorkspaceError::CreateDataDir { path, source } => with_source(
                "could not create workspace data directory at ",
                path,
                io_error_text(source),
            ),
            WorkspaceError::ReadFile { path, source } => with_source(
                "could not read ",
                path,
                io_error_text(source),
            ),
            WorkspaceError::WriteFile { path, source } => with_source(
                "could not write ",
                path,
                io_error_text(source),
            ),
            WorkspaceError::DeleteFile { path, source } => with_source(
                "could not delete ",
                path,
                io_error_text(source),
            ),
            WorkspaceError::ParseSnapshot { path, source } => with_source(
                "could not parse snapshot JSON at ",
                path,
                json_error_text(source),
            ),
            WorkspaceError::EncodeSnapshot(source) => {
                let out = concat_str("could not encode snapshot JSON: ", json_error_text(source).as_str());
                proof {
                    assert(out@.subrange(0, "could not encode snapshot JSON: "@.len() as int)
                        =~= "could not encode snapshot JSON: "@);
                }
                out
            },
            WorkspaceError::UnsupportedSnapshotVersion { name, found, supported } => {
                let mut s = concat_str("workspace '", name.as_str());
                s = concat_str(s.as_str(), "' uses snapshot schema version ");
                push_decimal(&mut s, *found as u64);
                s = concat_str(s.as_str(), ", but this build reads versions up to ");
                push_decimal(&mut s, *supported as u64);
                s
            },
            WorkspaceError::Interaction(m) => concat_str("interactive configuration failed: ", m.as_str()),
            WorkspaceError::MacOs(m) => concat_str("macOS API call failed: ", m.as_str()),
            WorkspaceError::AccessibilityPermissionRequired => string_of(
                "Accessibility permission is required to restore windows. Grant access in System Settings > Privacy & Security > Accessibility, then rerun restore.",
            ),
            WorkspaceError::SelftestFailed { failed, total } => {
                let mut s = usize_decimal(*failed);
                s = concat_str(s.as_str(), " of ");
                let t = usize_decimal(*total);
                s = concat_str(s.as_str(), t.as_str());
                concat_str(s.as_str(), " self-checks failed")
            },
        }
    }
}

} // verus!
