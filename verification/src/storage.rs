//! Where snapshots live and which names they may have.
//!
//! Snapshot names are restricted to ASCII letters, digits, dots, dashes and
//! underscores, may not start or end with a dot, and are at most 128
//! characters long, so a name is always one plain file name. Reading and
//! writing the files is done by the caller.

use vstd::prelude::*;

use crate::error::WorkspaceError;
use crate::model::SNAPSHOT_VERSION;
use crate::text::{chars_of, concat_str, string_of};

verus! {

/// A character a snapshot name may hold.
pub open spec fn name_char(c: char) -> bool {
    ('a' <= c && c <= 'z') || ('A' <= c && c <= 'Z') || ('0' <= c && c <= '9') || c == '-' || c == '_'
        || c == '.'
}

/// A valid snapshot name.
pub open spec fn valid_name(n: Seq<char>) -> bool {
    &&& n.len() > 0
    &&& n.len() <= 128
    &&& forall|i: int| 0 <= i < n.len() ==> name_char(#[trigger] n[i])
    &&& n[0] != '.'
    &&& n.last() != '.'
}

/// Accepts a valid snapshot name and refuses any other.
pub fn validate_name(name: &str) -> (r: Result<(), WorkspaceError>)
    ensures
        valid_name(name@) ==> r is Ok,
        !valid_name(name@) ==> (r matches Err(WorkspaceError::InvalidName(n)) && n@ == name@),
{
    let cs = chars_of(name);
    let n = cs.len();
    let mut ok = n > 0 && n <= 128;
    let mut i: usize = 0;
    while i < n
        invariant
            n == cs.len(),
            cs@ == name@,
            i <= n,
            ok == (n > 0 && n <= 128 && forall|j: int| 0 <= j < i ==> name_char(#[trigger] cs@[j])),
        decreases n - i,
    {
        let c = cs[i];
        let allowed = ('a' <= c && c <= 'z') || ('A' <= c && c <= 'Z') || ('0' <= c && c <= '9') || c == '-'
            || c == '_' || c == '.';
        if !allowed {
            ok = false;
        }
        proof {
            if ok {
                assert forall|j: int| 0 <= j < i + 1 implies name_char(#[trigger] cs@[j]) by {
                    if j == i {
                        assert(allowed);
                    }
                }
            } else if n > 0 && n <= 128 && allowed {
                let j0 = choose|j: int| 0 <= j < i && !name_char(#[trigger] cs@[j]);
                assert(0 <= j0 < i + 1 && !name_char(cs@[j0]));
            }
        }
        i = i + 1;
    }
    if ok && cs[0] != '.' && cs[n - 1] != '.' {
        Ok(())
    } else {
        Err(WorkspaceError::InvalidName(string_of(name)))
    }
}

/// The file name of a snapshot.
pub fn snapshot_file_name(name: &str) -> (r: Result<String, WorkspaceError>)
    ensures
        valid_name(name@) ==> (r matches Ok(f) && f@ == name@ + ".json"@),
        !valid_name(name@) ==> (r matches Err(WorkspaceError::InvalidName(n)) && n@ == name@),
{
    match validate_name(name) {
        Ok(()) => Ok(concat_str(name, ".json")),
        Err(e) => Err(e),
    }
}

/// Whether a snapshot may be written over what is stored under its name: a
/// snapshot that already exists is only replaced when forced.
pub fn check_can_save(name: &str, exists: bool, force: bool) -> (r: Result<(), WorkspaceError>)
    ensures
        !(exists && !force) ==> r is Ok,
        exists && !force ==> (r matches Err(WorkspaceError::AlreadyExists(n)) && n@ == name@),
{
    if exists && !force {
        Err(WorkspaceError::AlreadyExists(string_of(name)))
    } else {
        Ok(())
    }
}

/// Refuses a snapshot written by a newer schema than this build reads.
pub fn check_snapshot_version(name: &str, version: u32) -> (r: Result<(), WorkspaceError>)
    ensures
        version <= SNAPSHOT_VERSION ==> r is Ok,
        version > SNAPSHOT_VERSION ==> (r matches Err(WorkspaceError::UnsupportedSnapshotVersion { name: n, found, supported })
            && n@ == name@ && found == version && supported == SNAPSHOT_VERSION),
{
    if version > SNAPSHOT_VERSION {
        Err(WorkspaceError::UnsupportedSnapshotVersion { name: string_of(name), found: version, supported: SNAPSHOT_VERSION })
    } else {
        Ok(())
    }
}

/// Name for the result of `Path::join`: the path of `file` inside `root`.
pub uninterp spec fn joined_path(root: std::path::PathBuf, file: Seq<char>) -> std::path::PathBuf;

/// Trusted: `Path::join` with a relative file name returns the path of that
/// file inside `root`; it depends on its two arguments alone.
#[verifier::external_body]
fn join_path(root: &std::path::PathBuf, file: &str) -> (r: std::path::PathBuf)
    ensures
        r == joined_path(*root, file@),
{
    root.join(file)
}

/// The directory that holds the snapshots.
#[derive(Debug)]
pub struct SnapshotStore {
    root: std::path::PathBuf,
}

impl SnapshotStore {
    /// A store rooted at an existing directory.
    pub fn at(root: std::path::PathBuf) -> (r: Self)
        ensures
            r.root_path() == root,
    {
        SnapshotStore { root }
    }

    pub closed spec fn root_path(&self) -> std::path::PathBuf {
        self.root
    }

    /// The store's directory.
    pub fn root(&self) -> (r: &std::path::PathBuf)
        ensures
            *r == self.root_path(),
    {
        &self.root
    }

    /// The path of a snapshot's file, for a valid name.
    pub fn snapshot_path(&self, name: &str) -> (r: Result<std::path::PathBuf, WorkspaceError>)
        ensures
            valid_name(name@) ==> r == Ok::<std::path::PathBuf, WorkspaceError>(
                joined_path(self.root_path(), name@ + ".json"@),
            ),
            !valid_name(name@) ==> (r matches Err(WorkspaceError::InvalidName(n)) && n@ == name@),
    {
        match snapshot_file_name(name) {
            Ok(file) => Ok(join_path(&self.root, file.as_str())),
            Err(e) => Err(e),
        }
    }
}

} // verus!
