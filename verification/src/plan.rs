use vstd::prelude::*;
use crate::paths::path_starts_with;
use crate::types::{GlobalConfig, ProjectConfig};

verus! {

/// What a file written by a plan holds; the caller writes it as TOML.
#[derive(Debug, PartialEq)]
pub enum FileContent {
    /// The global configuration.
    Global(GlobalConfig),
    /// A project configuration.
    Project(ProjectConfig),
}

/// One file-system step of a plan. A plan's steps are carried out in order;
/// the first one that fails ends the operation with an I/O error.
#[derive(Debug, PartialEq)]
pub enum FsOp {
    /// Create a directory and its missing parents.
    CreateDirAll(String),
    /// Create a directory whose parent exists.
    CreateDir(String),
    /// Set the Unix permission bits of a path (ignored elsewhere).
    SetMode(String, u32),
    /// Create a file with the given content, unless a file is already there.
    CreateFileIfAbsent(String, FileContent),
    /// Replace a file's content atomically: write a fresh temporary file in
    /// the same directory, flush it, give it mode `0o600`, rename it over the
    /// target.
    WriteAtomic(String, FileContent),
    /// Take an exclusive advisory lock on a file and hold it until the plan
    /// ends.
    LockExclusive(String),
    /// Take a shared advisory lock on a file and hold it until the plan ends.
    LockShared(String),
    /// Read a file's text; that text is what the operation hands back.
    ReadConfig(String),
    /// Copy a file's content over another file.
    Copy(String, String),
    /// Remove a directory and everything below it.
    RemoveDirAll(String),
}

/// A plan step with its paths as text and its file content left out.
pub enum FsStep {
    CreateDirAll(Seq<char>),
    CreateDir(Seq<char>),
    SetMode(Seq<char>, u32),
    CreateFileIfAbsent(Seq<char>),
    WriteAtomic(Seq<char>),
    LockExclusive(Seq<char>),
    LockShared(Seq<char>),
    ReadConfig(Seq<char>),
    Copy(Seq<char>, Seq<char>),
    RemoveDirAll(Seq<char>),
}

impl View for FsOp {
    type V = FsStep;

    open spec fn view(&self) -> FsStep {
        match self {
            FsOp::CreateDirAll(p) => FsStep::CreateDirAll(p@),
            FsOp::CreateDir(p) => FsStep::CreateDir(p@),
            FsOp::SetMode(p, m) => FsStep::SetMode(p@, *m),
            FsOp::CreateFileIfAbsent(p, _) => FsStep::CreateFileIfAbsent(p@),
            FsOp::WriteAtomic(p, _) => FsStep::WriteAtomic(p@),
            FsOp::LockExclusive(p) => FsStep::LockExclusive(p@),
            FsOp::LockShared(p) => FsStep::LockShared(p@),
            FsOp::ReadConfig(p) => FsStep::ReadConfig(p@),
            FsOp::Copy(a, b) => FsStep::Copy(a@, b@),
            FsOp::RemoveDirAll(p) => FsStep::RemoveDirAll(p@),
        }
    }
}

/// The steps of a plan.
pub open spec fn steps(ops: Seq<FsOp>) -> Seq<FsStep> {
    ops.map_values(|o: FsOp| o@)
}

/// The file content a step writes, if it writes one.
pub open spec fn written_content(op: FsOp) -> Option<FileContent> {
    match op {
        FsOp::CreateFileIfAbsent(_, c) => Some(c),
        FsOp::WriteAtomic(_, c) => Some(c),
        _ => None,
    }
}

/// What is known of a directory before an operation on it: whether it exists
/// and, when it does, the canonical forms of it and of the root.
pub enum DirState {
    /// The directory does not exist.
    Missing,
    /// The directory exists; both paths are fully resolved.
    Present { canonical_dir: String, canonical_root: String },
}

/// An entry of the root directory, as listed.
#[derive(Debug, PartialEq)]
pub struct DirEntryInfo {
    /// The entry's name, absent when it is not valid Unicode.
    pub name: Option<String>,
    /// Whether the entry is a directory.
    pub is_dir: bool,
}

/// What a file holds, in the model of a file system that gives plans their
/// meaning: content a plan wrote, or bytes from elsewhere.
pub enum FileData {
    Written(FileContent),
    Other(Seq<u8>),
}

/// An entry of the file system, with its Unix permission bits.
pub enum Node {
    Dir { mode: u32 },
    File { data: FileData, mode: u32 },
}

/// The entry with its permission bits set to `m`.
pub open spec fn with_mode(n: Node, m: u32) -> Node {
    match n {
        Node::Dir { .. } => Node::Dir { mode: m },
        Node::File { data, .. } => Node::File { data, mode: m },
    }
}

/// `p` is a regular file in `s`.
pub open spec fn is_file_at(s: Map<Seq<char>, Node>, p: Seq<char>) -> bool {
    s.contains_key(p) && s[p] is File
}

/// `p` is a directory in `s`.
pub open spec fn is_dir_at(s: Map<Seq<char>, Node>, p: Seq<char>) -> bool {
    s.contains_key(p) && s[p] is Dir
}

/// Carrying out `op` succeeds on the file system `s` and leaves `t`. The file
/// system maps each path to its entry.
pub open spec fn step_runs(op: FsOp, s: Map<Seq<char>, Node>, t: Map<Seq<char>, Node>) -> bool {
    match op {
        FsOp::CreateDirAll(p) => if s.contains_key(p@) {
            s[p@] is Dir && t == s
        } else {
            &&& is_dir_at(t, p@)
            &&& forall|q: Seq<char>| #[trigger] s.contains_key(q) ==> t.contains_key(q) && t[q] == s[q]
            &&& forall|q: Seq<char>|
                #[trigger] t.contains_key(q) && !s.contains_key(q) ==> t[q] is Dir && path_starts_with(p@, q)
        },
        FsOp::CreateDir(p) => !s.contains_key(p@) && exists|m: u32| t == s.insert(p@, Node::Dir { mode: m }),
        FsOp::SetMode(p, m) => s.contains_key(p@) && t == s.insert(p@, with_mode(s[p@], m)),
        FsOp::CreateFileIfAbsent(p, c) => if s.contains_key(p@) {
            t == s
        } else {
            exists|m: u32| t == s.insert(p@, Node::File { data: FileData::Written(c), mode: m })
        },
        FsOp::WriteAtomic(p, c) => !is_dir_at(s, p@) && t == s.insert(
            p@,
            Node::File { data: FileData::Written(c), mode: 0o600 },
        ),
        FsOp::LockExclusive(p) => is_file_at(s, p@) && t == s,
        FsOp::LockShared(p) => is_file_at(s, p@) && t == s,
        FsOp::ReadConfig(p) => is_file_at(s, p@) && t == s,
        FsOp::Copy(a, b) => is_file_at(s, a@) && !is_dir_at(s, b@) && t == s.insert(b@, s[a@]),
        FsOp::RemoveDirAll(p) => is_dir_at(s, p@) && t == s.restrict(
            s.dom().filter(|q: Seq<char>| !path_starts_with(q, p@)),
        ),
    }
}

/// Carrying out the steps of `ops` in order succeeds on `s` and leaves `t`:
/// there are states, one before each step and one after the last, each step
/// leading from the state before it to the next.
pub open spec fn plan_runs(ops: Seq<FsOp>, s: Map<Seq<char>, Node>, t: Map<Seq<char>, Node>) -> bool {
    exists|states: Seq<Map<Seq<char>, Node>>|
        #![trigger states.len()]
        states.len() == ops.len() + 1 && states[0] == s && states[ops.len() as int] == t
            && forall|i: int| 0 <= i < ops.len() ==> step_runs(ops[i], #[trigger] states[i], states[i + 1])
}

} // verus!
