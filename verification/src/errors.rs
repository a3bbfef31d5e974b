use vstd::prelude::*;

verus! {

/// The error kinds surfaced by the metadata engine.
#[derive(Debug, Clone, Copy, PartialEq, Eq, Structural)]
pub enum DfsError {
    /// The path is not absolute or holds an empty component.
    InvalidPath,
    /// The path resolves nowhere.
    NotFound,
    /// A component on the way to the target resolves to a file.
    PathIsFile,
    /// The target of a directory operation is a file.
    NotDirectory,
    /// The target of a file operation is a directory.
    IsDirectory,
    /// The file exists in the namespace but not in the chunk-handle index.
    FileNotFound,
}

impl DfsError {
    /// A short human-readable name for the error.
    pub fn describe(&self) -> (r: &'static str) {
        match self {
            DfsError::InvalidPath => "invalid path",
            DfsError::NotFound => "not found",
            DfsError::PathIsFile => "path component is a file",
            DfsError::NotDirectory => "not a directory",
            DfsError::IsDirectory => "is a directory",
            DfsError::FileNotFound => "file missing from chunk index",
        }
    }
}

} // verus!
