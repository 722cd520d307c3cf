//! Error kinds reported by the planning and execution stages.

use vstd::prelude::*;

verus! {

/// The failure categories a planning or execution step can report.
#[derive(Clone, Copy, Debug, PartialEq, Eq, Structural)]
pub enum ErrorKind {
    CreateBackup,
    CreateFile,
    CreateSymlink,
    ExistingPath,
    JsonParse,
    ReadFile,
    Rename,
    SameFilename,
    SolveOrder,
}

/// An error: its kind, and the offending path(s) or detail as text.
#[derive(Debug)]
pub struct Error {
    pub kind: ErrorKind,
    pub value: Option<String>,
}

/// The human-readable description owed to each error kind.
pub open spec fn description_of(kind: ErrorKind) -> Seq<char> {
    match kind {
        ErrorKind::CreateBackup => "Cannot create a backup of"@,
        ErrorKind::CreateFile => "Cannot create file"@,
        ErrorKind::CreateSymlink => "Cannot create symlink"@,
        ErrorKind::ExistingPath => "Conflict with existing path"@,
        ErrorKind::JsonParse => "Cannot parse JSON  file"@,
        ErrorKind::ReadFile => "Cannot open/read file"@,
        ErrorKind::Rename => "Cannot Rename"@,
        ErrorKind::SameFilename => "Files will have the same name"@,
        ErrorKind::SolveOrder => "Cannot solve sorting problem"@,
    }
}

impl Error {
    /// A short description of the error's kind.
    pub fn description(&self) -> (r: &'static str)
        ensures
            r@ == description_of(self.kind),
    {
        match self.kind {
            ErrorKind::CreateBackup => "Cannot create a backup of",
            ErrorKind::CreateFile => "Cannot create file",
            ErrorKind::CreateSymlink => "Cannot create symlink",
            ErrorKind::ExistingPath => "Conflict with existing path",
            ErrorKind::JsonParse => "Cannot parse JSON  file",
            ErrorKind::ReadFile => "Cannot open/read file",
            ErrorKind::Rename => "Cannot Rename",
            ErrorKind::SameFilename => "Files will have the same name",
            ErrorKind::SolveOrder => "Cannot solve sorting problem",
        }
    }
}

} // verus!
