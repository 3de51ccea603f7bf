use vstd::prelude::*;

verus! {

/// Errors that can occur in the library.
///
/// Each variant names a distinct failure mode and carries its context as text.
#[derive(Debug, PartialEq, Eq)]
pub enum NeuxcfgError {
    /// The system configuration directory could not be determined.
    ConfigDirNotFound,
    /// An I/O operation failed; the payload is its message.
    Io(String),
    /// A project name contained illegal characters or was empty.
    InvalidProjectName(String),
    /// A project with this name already exists.
    ProjectAlreadyExists(String),
    /// The requested project (or one of its files) does not exist.
    ProjectNotFound(String),
    /// A TOML document could not be read back into a configuration.
    TomlParse(String),
    /// A value could not be written as a TOML document.
    TomlSerialize(String),
    /// The resolved project directory lies outside the root.
    PathTraversal(String),
    /// An extra configuration field was rejected.
    ValidationError(String),
    /// An advisory file lock could not be acquired.
    LockError(String),
}

/// The human-readable text of an error: a fixed prefix per variant followed by
/// its payload.
pub open spec fn error_text(e: NeuxcfgError) -> Seq<char> {
    match e {
        NeuxcfgError::ConfigDirNotFound => "cannot determine config directory"@,
        NeuxcfgError::Io(s) => "I/O error: "@ + s@,
        NeuxcfgError::InvalidProjectName(s) => "invalid project name: "@ + s@,
        NeuxcfgError::ProjectAlreadyExists(s) => "project '"@ + s@ + "' already exists"@,
        NeuxcfgError::ProjectNotFound(s) => "project '"@ + s@ + "' not found"@,
        NeuxcfgError::TomlParse(s) => "TOML parse error: "@ + s@,
        NeuxcfgError::TomlSerialize(s) => "TOML serialize error: "@ + s@,
        NeuxcfgError::PathTraversal(s) => "path traversal detected for project '"@ + s@ + "'"@,
        NeuxcfgError::ValidationError(s) => "validation error: "@ + s@,
        NeuxcfgError::LockError(s) => "lock error: "@ + s@,
    }
}

impl NeuxcfgError {
    /// Renders the error as text.
    pub fn to_string(&self) -> (r: String)
        ensures
            r@ == error_text(*self),
    {
        match self {
            NeuxcfgError::ConfigDirNotFound => String::from_str("cannot determine config directory"),
            NeuxcfgError::Io(s) => String::from_str("I/O error: ").concat(s.as_str()),
            NeuxcfgError::InvalidProjectName(s) => String::from_str("invalid project name: ").concat(
                s.as_str(),
            ),
            NeuxcfgError::ProjectAlreadyExists(s) => String::from_str("project '").concat(
                s.as_str(),
            ).concat("' already exists"),
            NeuxcfgError::ProjectNotFound(s) => String::from_str("project '").concat(
                s.as_str(),
            ).concat("' not found"),
            NeuxcfgError::TomlParse(s) => String::from_str("TOML parse error: ").concat(s.as_str()),
            NeuxcfgError::TomlSerialize(s) => String::from_str("TOML serialize error: ").concat(
                s.as_str(),
            ),
            NeuxcfgError::PathTraversal(s) => String::from_str(
                "path traversal detected for project '",
            ).concat(s.as_str()).concat("'"),
            NeuxcfgError::ValidationError(s) => String::from_str("validation error: ").concat(
                s.as_str(),
            ),
            NeuxcfgError::LockError(s) => String::from_str("lock error: ").concat(s.as_str()),
        }
    }
}

} // verus!
