use vstd::prelude::*;
use crate::backup::{backup_of, not_found, backup_project_config, restore_project_config};
use crate::error::NeuxcfgError;
use crate::paths::{
    join_path, path_join, path_starts_with, starts_with, path_components, is_plain_name,
    lemma_join_stays_below, lemma_components_join,
};
use crate::plan::{
    DirEntryInfo, DirState, FileContent, FsOp, FsStep, Node, steps, written_content, step_runs,
    plan_runs, with_mode,
};
use crate::text::contains_char;
use crate::types::{
    GlobalConfig, ProjectConfig, same_config, is_document_of, is_readable, reads_as, project_key,
    name_key, path_key,
};
use crate::merge::{merges_to, overlays, lemma_merge_overlays};
use crate::value::{TomlValue, same_value, lemma_same_value_trans};
use crate::validate::{extra_allowed, extra_rejected, validate_extra};

verus! {

/// `s` holds two dots in a row.
pub open spec fn has_dotdot(s: Seq<char>) -> bool {
    exists|i: int| 0 <= i < s.len() - 1 && #[trigger] s[i] == '.' && s[i + 1] == '.'
}

/// Why `name` cannot name a project, or none when it can: it must not be
/// empty and must not hold `/`, `\`, `..` or a NUL character.
pub open spec fn name_problem(name: Seq<char>) -> Option<Seq<char>> {
    if name.len() == 0 {
        Some("name cannot be empty"@)
    } else if name.contains('/') || name.contains('\\') || has_dotdot(name) || name.contains(
        '\0',
    ) {
        Some("invalid characters in '"@ + name + "'"@)
    } else {
        None
    }
}

/// Where a project's directory is, or why there is none.
pub enum Resolution {
    /// The directory to use.
    Dir(Seq<char>),
    /// The name is rejected, with this message.
    BadName(Seq<char>),
    /// The existing directory resolves outside the root.
    Escapes,
}

/// The directory of project `name` under `root`: the root joined with the
/// name while it does not exist, its canonical form once it does, provided
/// that form lies at or below the canonical root.
pub open spec fn resolve(root: Seq<char>, name: Seq<char>, state: DirState) -> Resolution {
    match name_problem(name) {
        Some(m) => Resolution::BadName(m),
        None => match state {
            DirState::Missing => Resolution::Dir(path_join(root, name)),
            DirState::Present { canonical_dir, canonical_root } => if path_starts_with(
                canonical_dir@,
                canonical_root@,
            ) {
                Resolution::Dir(canonical_dir@)
            } else {
                Resolution::Escapes
            },
        },
    }
}

/// The steps of initialising `root`.
pub open spec fn init_steps(root: Seq<char>) -> Seq<FsStep> {
    let cfg = path_join(root, "config.cfg"@);
    seq![
        FsStep::CreateDirAll(root),
        FsStep::SetMode(root, 0o700),
        FsStep::CreateFileIfAbsent(cfg),
        FsStep::SetMode(cfg, 0o600),
    ]
}

/// `e` is the error reported for a resolution that gave no directory.
pub open spec fn resolution_error(res: Resolution, name: Seq<char>, e: NeuxcfgError) -> bool {
    match res {
        Resolution::BadName(m) => e is InvalidProjectName && e->InvalidProjectName_0@ == m,
        Resolution::Escapes => e is PathTraversal && e->PathTraversal_0@ == name,
        Resolution::Dir(_) => false,
    }
}

/// The name of a project's configuration file.
pub open spec fn config_file_name(name: Seq<char>) -> Seq<char> {
    name + ".config.cfg"@
}

/// The outcome of overwriting project `name` with `config`.
pub open spec fn set_outcome(
    root: Seq<char>,
    name: Seq<char>,
    config: ProjectConfig,
    state: DirState,
    file_exists: bool,
    r: Result<Vec<FsOp>, NeuxcfgError>,
) -> bool {
    if !extra_allowed(config.project.extra) {
        r is Err && extra_rejected(config.project.extra, r->Err_0)
    } else {
        match resolve(root, name, state) {
            Resolution::Dir(dir) => {
                let path = path_join(dir, config_file_name(name));
                if !file_exists {
                    r is Err && not_found(r->Err_0, name)
                } else {
                    &&& r is Ok
                    &&& steps(r->Ok_0@) == seq![
                        FsStep::Copy(path, backup_of(path)),
                        FsStep::SetMode(backup_of(path), 0o600),
                        FsStep::LockExclusive(path),
                        FsStep::WriteAtomic(path),
                        FsStep::SetMode(path, 0o600),
                    ]
                    &&& written_content(r->Ok_0@[3]) matches Some(FileContent::Project(c))
                        && same_config(c, config)
                }
            },
            res => r is Err && resolution_error(res, name, r->Err_0),
        }
    }
}

/// A listed entry names a project: a directory with a Unicode name that is
/// neither `.` nor `..` and passes the name check.
pub open spec fn is_listed(e: DirEntryInfo) -> bool {
    &&& e.is_dir
    &&& e.name is Some
    &&& e.name->0@ != "."@
    &&& e.name->0@ != ".."@
    &&& name_problem(e.name->0@) is None
}

/// The names of the listed entries, in order.
pub open spec fn listed_names(es: Seq<DirEntryInfo>) -> Seq<Seq<char>>
    decreases es.len(),
{
    if es.len() == 0 {
        Seq::<Seq<char>>::empty()
    } else if is_listed(es.last()) {
        listed_names(es.drop_last()).push(es.last().name->0@)
    } else {
        listed_names(es.drop_last())
    }
}

/// The outcome of adding project `name` under `root`.
pub open spec fn add_outcome(
    root: Seq<char>,
    name: Seq<char>,
    dir_exists: bool,
    r: Result<Vec<FsOp>, NeuxcfgError>,
) -> bool {
    match name_problem(name) {
        Some(m) => r is Err && r->Err_0 is InvalidProjectName && r->Err_0->InvalidProjectName_0@ == m,
        None => {
            let dir = path_join(root, name);
            let cfg = path_join(dir, config_file_name(name));
            if dir_exists {
                r is Err && r->Err_0 is ProjectAlreadyExists && r->Err_0->ProjectAlreadyExists_0@
                    == name
            } else {
                &&& r is Ok
                &&& steps(r->Ok_0@) == seq![
                    FsStep::CreateDir(dir),
                    FsStep::SetMode(dir, 0o700),
                    FsStep::WriteAtomic(cfg),
                    FsStep::SetMode(cfg, 0o600),
                ]
                &&& written_content(r->Ok_0@[2]) matches Some(FileContent::Project(c))
                    && c.project.name@ == name && c.project.path@ == dir
                    && c.project.extra.entries@.len() == 0
            }
        },
    }
}

/// The outcome of reading project `name`'s configuration: its file is locked
/// shared, then read.
pub open spec fn get_outcome(
    root: Seq<char>,
    name: Seq<char>,
    state: DirState,
    file_exists: bool,
    r: Result<Vec<FsOp>, NeuxcfgError>,
) -> bool {
    match resolve(root, name, state) {
        Resolution::Dir(p) => if file_exists {
            let path = path_join(p, config_file_name(name));
            r is Ok && steps(r->Ok_0@) == seq![FsStep::LockShared(path), FsStep::ReadConfig(path)]
        } else {
            r is Err && not_found(r->Err_0, name)
        },
        res => r is Err && resolution_error(res, name, r->Err_0),
    }
}

/// The outcome of backing up project `name`'s configuration.
pub open spec fn backup_outcome(
    root: Seq<char>,
    name: Seq<char>,
    state: DirState,
    file_exists: bool,
    r: Result<(String, Vec<FsOp>), NeuxcfgError>,
) -> bool {
    match resolve(root, name, state) {
        Resolution::Dir(p) => {
            let path = path_join(p, config_file_name(name));
            if file_exists {
                &&& r is Ok
                &&& r->Ok_0.0@ == backup_of(path)
                &&& steps(r->Ok_0.1@) == seq![
                    FsStep::Copy(path, backup_of(path)),
                    FsStep::SetMode(backup_of(path), 0o600),
                ]
            } else {
                r is Err && not_found(r->Err_0, path)
            }
        },
        res => r is Err && resolution_error(res, name, r->Err_0),
    }
}

/// The outcome of restoring project `name`'s configuration from its backup.
pub open spec fn restore_outcome(
    root: Seq<char>,
    name: Seq<char>,
    state: DirState,
    backup_exists: bool,
    r: Result<Vec<FsOp>, NeuxcfgError>,
) -> bool {
    match resolve(root, name, state) {
        Resolution::Dir(p) => {
            let path = path_join(p, config_file_name(name));
            if backup_exists {
                r is Ok && steps(r->Ok_0@) == seq![
                    FsStep::Copy(backup_of(path), path),
                    FsStep::SetMode(path, 0o600),
                ]
            } else {
                r is Err && not_found(r->Err_0, "backup file not found"@)
            }
        },
        res => r is Err && resolution_error(res, name, r->Err_0),
    }
}

fn has_dotdot_exec(s: &str) -> (r: bool)
    ensures
        r == has_dotdot(s@),
{
    let n = s.unicode_len();
    let mut i: usize = 0;
    while i < n && i + 1 < n
        invariant
            n == s@.len(),
            0 <= i,
            i <= n,
            forall|j: int| 0 <= j < i && j < n - 1 ==> !(#[trigger] s@[j] == '.' && s@[j + 1] == '.'),
        decreases n - i,
    {
        if s.get_char(i) == '.' && s.get_char(i + 1) == '.' {
            return true;
        }
        i = i + 1;
    }
    proof {
        assert forall|j: int| 0 <= j < s@.len() - 1 implies !(#[trigger] s@[j] == '.' && s@[j + 1]
            == '.') by {
            assert(j < i || i >= n || i + 1 >= n);
        }
    }
    false
}

/// Central configuration manager: every project lives in a directory of its
/// own under one root directory.
pub struct Neuxcfg {
    root: String,
}

impl View for Neuxcfg {
    type V = Seq<char>;

    closed spec fn view(&self) -> Seq<char> {
        self.root@
    }
}

/// The system configuration directory from `dirs::config_dir`, as text
/// (non-Unicode parts replaced as `to_string_lossy` does).
///
/// The result depends on the environment (`XDG_CONFIG_HOME`, `HOME`), so the
/// contract says nothing of it.
#[verifier::external_body]
fn system_config_dir() -> (r: Option<String>) {
    dirs::config_dir().map(|p| p.to_string_lossy().into_owned())
}

impl Neuxcfg {
    /// A manager rooted at `<config_dir>/neuxcfg`, where `<config_dir>` is the
    /// system configuration directory.
    pub fn new() -> (r: Result<Neuxcfg, NeuxcfgError>)
        ensures
            match r {
                Ok(cfg) => exists|d: Seq<char>| cfg@ == path_join(d, "neuxcfg"@),
                Err(e) => e is ConfigDirNotFound,
            },
    {
        Neuxcfg::from_config_dir(system_config_dir())
    }

    /// A manager rooted at `neuxcfg` under the given configuration directory,
    /// or [`NeuxcfgError::ConfigDirNotFound`] when there is none.
    pub fn from_config_dir(config_dir: Option<String>) -> (r: Result<Neuxcfg, NeuxcfgError>)
        ensures
            match config_dir {
                Some(d) => r is Ok && r->Ok_0@ == path_join(d@, "neuxcfg"@),
                None => r is Err && r->Err_0 is ConfigDirNotFound,
            },
    {
        match config_dir {
            Some(d) => Ok(Neuxcfg { root: join_path(d.as_str(), "neuxcfg") }),
            None => Err(NeuxcfgError::ConfigDirNotFound),
        }
    }

    /// A manager with an explicit root; nothing is created.
    pub fn with_root(root: String) -> (r: Neuxcfg)
        ensures
            r@ == root@,
    {
        Neuxcfg { root }
    }

    /// The root directory.
    pub fn root(&self) -> (r: &str)
        ensures
            r@ == self@,
    {
        self.root.as_str()
    }

    /// Checks that a project name is not empty and holds neither a path
    /// separator (`/`, `\`), nor `..`, nor a NUL character.
    pub fn validate_project_name(name: &str) -> (r: Result<(), NeuxcfgError>)
        ensures
            r is Ok <==> (name@.len() > 0 && !name@.contains('/') && !name@.contains('\\') && !name@.contains('\0')
            && forall|i: int| 0 <= i < name@.len() - 1 ==> !(#[trigger] name@[i] == '.' && name@[i + 1] == '.')),
            match r {
                Ok(()) => name_problem(name@) is None,
                Err(e) => name_problem(name@) is Some && e is InvalidProjectName
                    && e->InvalidProjectName_0@ == name_problem(name@)->0,
            },
    {
        proof {
            lemma_name_rule(name@);
        }
        if name.unicode_len() == 0 {
            return Err(NeuxcfgError::InvalidProjectName(String::from_str("name cannot be empty")));
        }
        if contains_char(name, '/') || contains_char(name, '\\') || has_dotdot_exec(name)
            || contains_char(name, '\0') {
            let msg = String::from_str("invalid characters in '").concat(name).concat("'");
            return Err(NeuxcfgError::InvalidProjectName(msg));
        }
        Ok(())
    }

    /// The directory a project gets when it is created: the root joined with
    /// the (checked) name.
    pub fn project_dir(&self, name: &str) -> (r: Result<String, NeuxcfgError>)
        ensures
            match r {
                Ok(p) => name_problem(name@) is None && p@ == path_join(self@, name@),
                Err(e) => resolution_error(resolve(self@, name@, DirState::Missing), name@, e),
            },
    {
        Neuxcfg::validate_project_name(name)?;
        Ok(join_path(self.root.as_str(), name))
    }

    /// The directory of a project, guarded against path traversal: when the
    /// directory exists, its canonical form must lie at or below the
    /// canonical root.
    pub fn secure_project_dir(&self, name: &str, state: &DirState) -> (r: Result<
        String,
        NeuxcfgError,
    >)
        ensures
            match resolve(self@, name@, *state) {
                Resolution::Dir(p) => r is Ok && r->Ok_0@ == p,
                res => r is Err && resolution_error(res, name@, r->Err_0),
            },
    {
        Neuxcfg::validate_project_name(name)?;
        match state {
            DirState::Missing => Ok(join_path(self.root.as_str(), name)),
            DirState::Present { canonical_dir, canonical_root } => {
                if !starts_with(canonical_dir.as_str(), canonical_root.as_str()) {
                    return Err(NeuxcfgError::PathTraversal(name.to_owned()));
                }
                Ok(canonical_dir.clone())
            },
        }
    }

    /// The configuration file of a project: `<name>.config.cfg` in its
    /// directory.
    pub fn project_config_path(&self, name: &str, state: &DirState) -> (r: Result<
        String,
        NeuxcfgError,
    >)
        ensures
            match resolve(self@, name@, *state) {
                Resolution::Dir(p) => r is Ok && r->Ok_0@ == path_join(p, config_file_name(name@)),
                res => r is Err && resolution_error(res, name@, r->Err_0),
            },
    {
        let dir = self.secure_project_dir(name, state)?;
        let file = name.to_owned().concat(".config.cfg");
        Ok(join_path(dir.as_str(), file.as_str()))
    }

    /// Initialises the root: creates it (mode `0o700`) and writes the global
    /// configuration to `config.cfg` unless that file already exists; the
    /// file gets mode `0o600` either way.
    pub fn init(&self, global: GlobalConfig) -> (r: Vec<FsOp>)
        ensures
            steps(r@) == init_steps(self@),
            written_content(r@[2]) == Some(FileContent::Global(global)),
    {
        let cfg = join_path(self.root.as_str(), "config.cfg");
        let r = vec![
            FsOp::CreateDirAll(self.root.clone()),
            FsOp::SetMode(self.root.clone(), 0o700),
            FsOp::CreateFileIfAbsent(cfg.clone(), FileContent::Global(global)),
            FsOp::SetMode(cfg, 0o600),
        ];
        proof {
            assert(steps(r@) =~= seq![
                FsStep::CreateDirAll(self@),
                FsStep::SetMode(self@, 0o700),
                FsStep::CreateFileIfAbsent(path_join(self@, "config.cfg"@)),
                FsStep::SetMode(path_join(self@, "config.cfg"@), 0o600),
            ]);
        }
        r
    }

    /// Adds a project: creates its directory (mode `0o700`) and atomically
    /// writes its default configuration (mode `0o600`), whose path is the
    /// directory's path. `dir_exists` tells whether the directory that
    /// [`project_dir`](Self::project_dir) names already exists.
    pub fn add_project(&self, name: &str, dir_exists: bool) -> (r: Result<Vec<FsOp>, NeuxcfgError>)
        ensures
            add_outcome(self@, name@, dir_exists, r),
    {
        Neuxcfg::validate_project_name(name)?;
        let dir = join_path(self.root.as_str(), name);
        if dir_exists {
            return Err(NeuxcfgError::ProjectAlreadyExists(name.to_owned()));
        }
        let config = ProjectConfig::new(name.to_owned(), dir.clone());
        validate_extra(&config.project.extra)?;
        let file = name.to_owned().concat(".config.cfg");
        let cfg = join_path(dir.as_str(), file.as_str());
        let r = vec![
            FsOp::CreateDir(dir.clone()),
            FsOp::SetMode(dir, 0o700),
            FsOp::WriteAtomic(cfg.clone(), FileContent::Project(config)),
            FsOp::SetMode(cfg, 0o600),
        ];
        proof {
            let d = path_join(self@, name@);
            let c = path_join(d, config_file_name(name@));
            assert(steps(r@) =~= seq![
                FsStep::CreateDir(d),
                FsStep::SetMode(d, 0o700),
                FsStep::WriteAtomic(c),
                FsStep::SetMode(c, 0o600),
            ]);
        }
        Ok(r)
    }

    /// Removes a project's directory and everything in it.
    pub fn remove_project(&self, name: &str, state: &DirState) -> (r: Result<Vec<FsOp>, NeuxcfgError>)
        ensures
            match resolve(self@, name@, *state) {
                Resolution::Dir(p) => match state {
                    DirState::Missing => r is Err && not_found(r->Err_0, name@),
                    DirState::Present { .. } => r is Ok && steps(r->Ok_0@) == seq![FsStep::RemoveDirAll(p)],
                },
                res => r is Err && resolution_error(res, name@, r->Err_0),
            },
    {
        let dir = self.secure_project_dir(name, state)?;
        match state {
            DirState::Missing => Err(NeuxcfgError::ProjectNotFound(name.to_owned())),
            DirState::Present { .. } => {
                let r = vec![FsOp::RemoveDirAll(dir)];
                proof {
                    assert(steps(r@) =~= seq![FsStep::RemoveDirAll(r@[0]->RemoveDirAll_0@)]);
                }
                Ok(r)
            },
        }
    }

    /// The names of the projects among the root's entries: the directories
    /// whose names pass the name check (`.` and `..` excluded), in listing
    /// order. A missing root lists nothing.
    pub fn list_projects(&self, entries: &Vec<DirEntryInfo>) -> (r: Vec<String>)
        ensures
            r@.map_values(|x: String| x@) == listed_names(entries@),
            forall|i: int|
                0 <= i < entries@.len() && (#[trigger] entries@[i]).is_dir && entries@[i].name is Some
                    && entries@[i].name->0@ != "."@ && {
                    let n = entries@[i].name->0@;
                    (n.len() > 0 && !n.contains('/') && !n.contains('\\') && !n.contains('\0')
            && forall|i: int| 0 <= i < n.len() - 1 ==> !(#[trigger] n[i] == '.' && n[i + 1] == '.'))
                } ==> r@.map_values(|x: String| x@).contains(entries@[i].name->0@),
    {
        proof {
            lemma_listing_complete(entries@);
        }
        proof {
            reveal_strlit(".");
            reveal_strlit("..");
        }
        let mut out: Vec<String> = Vec::new();
        let mut i: usize = 0;
        proof {
            assert(entries@.take(0) =~= Seq::<DirEntryInfo>::empty());
            assert(out@.map_values(|x: String| x@) =~= Seq::<Seq<char>>::empty());
        }
        while i < entries.len()
            invariant
                0 <= i <= entries@.len(),
                out@.map_values(|x: String| x@) == listed_names(entries@.take(i as int)),
            decreases entries@.len() - i,
        {
            let e = &entries[i];
            proof {
                assert(entries@.take(i as int + 1).drop_last() =~= entries@.take(i as int));
                assert(entries@.take(i as int + 1).last() == *e);
            }
            if e.is_dir {
                match &e.name {
                    Some(n) => {
                        let dot = n.unicode_len() == 1 && n.as_str().get_char(0) == '.';
                        let dotdot = n.unicode_len() == 2 && n.as_str().get_char(0) == '.'
                            && n.as_str().get_char(1) == '.';
                        proof {
                            reveal_strlit(".");
                            reveal_strlit("..");
                            assert(dot == (n@ == "."@)) by {
                                if n@.len() == 1 && n@[0] == '.' {
                                    assert(n@ =~= "."@);
                                }
                            }
                            assert(dotdot == (n@ == ".."@)) by {
                                if n@.len() == 2 && n@[0] == '.' && n@[1] == '.' {
                                    assert(n@ =~= ".."@);
                                }
                            }
                        }
                        if !dot && !dotdot {
                            match Neuxcfg::validate_project_name(n.as_str()) {
                                Ok(()) => {
                                    let ghost before = out@;
                                    out.push(n.clone());
                                    proof {
                                        assert(out@.map_values(|x: String| x@) =~= before.map_values(
                                            |x: String| x@,
                                        ).push(n@));
                                    }
                                },
                                Err(_) => {},
                            }
                        }
                    },
                    None => {},
                }
            }
            i = i + 1;
        }
        proof {
            assert(entries@.take(entries@.len() as int) =~= entries@);
        }
        out
    }

    /// Whether a project exists, given whether the directory that
    /// [`project_dir`](Self::project_dir) names is a directory.
    pub fn project_exists(&self, name: &str, is_dir: bool) -> (r: Result<bool, NeuxcfgError>)
        ensures
            match name_problem(name@) {
                Some(m) => r is Err && r->Err_0 is InvalidProjectName && r->Err_0->InvalidProjectName_0@ == m,
                None => r == Ok::<bool, NeuxcfgError>(is_dir),
            },
    {
        Neuxcfg::validate_project_name(name)?;
        Ok(is_dir)
    }

    /// Reads a project's configuration: its file is locked shared, then read;
    /// the text read is the configuration. Takes the state of the project's
    /// directory and whether that file exists.
    pub fn get_project_config(&self, name: &str, state: &DirState, file_exists: bool) -> (r: Result<
        Vec<FsOp>,
        NeuxcfgError,
    >)
        ensures
            get_outcome(self@, name@, *state, file_exists, r),
    {
        let path = self.project_config_path(name, state)?;
        if !file_exists {
            return Err(NeuxcfgError::ProjectNotFound(name.to_owned()));
        }
        let r = vec![FsOp::LockShared(path.clone()), FsOp::ReadConfig(path)];
        proof {
            let p = r@[0]->LockShared_0@;
            assert(steps(r@) =~= seq![FsStep::LockShared(p), FsStep::ReadConfig(p)]);
        }
        Ok(r)
    }

    /// Overwrites a project's configuration: the extra fields are validated
    /// first; then the current file is backed up (mode `0o600`), locked
    /// exclusively and replaced atomically (mode `0o600`).
    pub fn set_project_config(
        &self,
        name: &str,
        config: &ProjectConfig,
        state: &DirState,
        file_exists: bool,
    ) -> (r: Result<Vec<FsOp>, NeuxcfgError>)
        ensures
            set_outcome(self@, name@, *config, *state, file_exists, r),
    {
        validate_extra(&config.project.extra)?;
        let path = self.project_config_path(name, state)?;
        if !file_exists {
            return Err(NeuxcfgError::ProjectNotFound(name.to_owned()));
        }
        let (bak, _) = backup_project_config(path.as_str(), true)?;
        let content = config.duplicate();
        let r = vec![
            FsOp::Copy(path.clone(), bak.clone()),
            FsOp::SetMode(bak, 0o600),
            FsOp::LockExclusive(path.clone()),
            FsOp::WriteAtomic(path.clone(), FileContent::Project(content)),
            FsOp::SetMode(path, 0o600),
        ];
        proof {
            let p = r@[0]->Copy_0@;
            assert(steps(r@) =~= seq![
                FsStep::Copy(p, backup_of(p)),
                FsStep::SetMode(backup_of(p), 0o600),
                FsStep::LockExclusive(p),
                FsStep::WriteAtomic(p),
                FsStep::SetMode(p, 0o600),
            ]);
        }
        Ok(r)
    }

    /// Copies a project's configuration file to its backup
    /// (`<name>.config.cfg.bak`, mode `0o600`), returning the backup's path.
    pub fn backup_project(&self, name: &str, state: &DirState, file_exists: bool) -> (r: Result<
        (String, Vec<FsOp>),
        NeuxcfgError,
    >)
        ensures
            backup_outcome(self@, name@, *state, file_exists, r),
    {
        let path = self.project_config_path(name, state)?;
        backup_project_config(path.as_str(), file_exists)
    }

    /// Copies a project's backup back over its configuration file (mode
    /// `0o600`), given whether the backup exists.
    pub fn restore_project(&self, name: &str, state: &DirState, backup_exists: bool) -> (r: Result<
        Vec<FsOp>,
        NeuxcfgError,
    >)
        ensures
            restore_outcome(self@, name@, *state, backup_exists, r),
    {
        let path = self.project_config_path(name, state)?;
        restore_project_config(path.as_str(), backup_exists)
    }

    /// Applies a partial update to a project: `delta` is deep-merged into the
    /// document of its current configuration (as read by
    /// [`get_project_config`](Self::get_project_config)), the result is read
    /// back, and written as [`set_project_config`](Self::set_project_config)
    /// writes.
    pub fn update_project_config(
        &self,
        name: &str,
        current: &ProjectConfig,
        delta: &TomlValue,
        state: &DirState,
        file_exists: bool,
    ) -> (r: Result<Vec<FsOp>, NeuxcfgError>)
        requires
            current.wf(),
            delta.wf(),
        ensures
            exists|doc: TomlValue, merged: TomlValue|
                {
                    &&& is_document_of(doc, *current)
                    &&& merges_to(doc, *delta, merged)
                    &&& overlays(merged, *delta)
                    &&& merged.wf()
                    &&& if is_readable(merged) {
                        exists|c: ProjectConfig|
                            reads_as(merged, c) && set_outcome(self@, name@, c, *state, file_exists, r)
                    } else {
                        &&& r is Err
                        &&& merged is Table ==> r->Err_0 is TomlParse
                        &&& !(merged is Table) ==> r->Err_0 is TomlSerialize
                            && r->Err_0->TomlSerialize_0@ == "unsupported rust type"@
                    }
                },
    {
        let applied = current.apply_delta(delta);
        let ghost pair = choose|doc: TomlValue, merged: TomlValue|
            {
                &&& is_document_of(doc, *current)
                &&& merges_to(doc, *delta, merged)
                &&& merged.wf()
                &&& match applied {
                    Ok(c) => is_readable(merged) && reads_as(merged, c),
                    Err(e) => if merged is Table {
                        !is_readable(merged) && e is TomlParse
                    } else {
                        e is TomlSerialize && e->TomlSerialize_0@ == "unsupported rust type"@
                    },
                }
            };
        match applied {
            Ok(merged_config) => {
                let r = self.set_project_config(name, &merged_config, state, file_exists);
                proof {
                    let (doc, merged) = pair;
                    lemma_merge_overlays(doc, *delta, merged);
                    assert(reads_as(merged, merged_config));
                }
                r
            },
            Err(e) => {
                proof {
                    let (doc, merged) = pair;
                    lemma_merge_overlays(doc, *delta, merged);
                    assert(is_document_of(doc, *current) && merges_to(doc, *delta, merged));
                }
                Err(e)
            },
        }
    }
}

proof fn lemma_checked_name_is_plain(name: Seq<char>)
    requires
        name_problem(name) is None,
    ensures
        is_plain_name(name),
{
}

/// A name that passes the check never leads out of the root: the project's
/// directory lies at or below it.
pub proof fn lemma_project_dir_under_root(root: Seq<char>, name: Seq<char>)
    requires
        name_problem(name) is None,
    ensures
        path_starts_with(path_join(root, name), root),
{
    lemma_checked_name_is_plain(name);
    lemma_join_stays_below(root, name);
}

/// A name that passes the check, other than `.`, names a directory exactly one
/// level below the root.
pub proof fn lemma_project_dir_one_level(root: Seq<char>, name: Seq<char>)
    requires
        name_problem(name) is None,
        name != seq!['.'],
    ensures
        path_components(path_join(root, name)) == path_components(root).push(name),
{
    lemma_checked_name_is_plain(name);
    lemma_components_join(root, name);
}

/// Every directory an operation works in lies at or below the root: below the
/// root itself while the directory is new, below the canonical root once it
/// exists.
pub proof fn lemma_resolved_dir_under_root(root: Seq<char>, name: Seq<char>, state: DirState)
    requires
        resolve(root, name, state) is Dir,
    ensures
        match state {
            DirState::Missing => path_starts_with(resolve(root, name, state)->Dir_0, root),
            DirState::Present { canonical_dir: _, canonical_root } => path_starts_with(
                resolve(root, name, state)->Dir_0,
                canonical_root@,
            ),
        },
{
    if state is Missing {
        lemma_project_dir_under_root(root, name);
    }
}

/// Restoring copies back exactly what backing up copied: the backup's copy
/// goes from the configuration file to the backup, the restore's copy the
/// other way.
pub proof fn lemma_restore_undoes_backup(
    root: Seq<char>,
    name: Seq<char>,
    state: DirState,
    rb: Result<(String, Vec<FsOp>), NeuxcfgError>,
    rr: Result<Vec<FsOp>, NeuxcfgError>,
)
    requires
        backup_outcome(root, name, state, true, rb),
        restore_outcome(root, name, state, true, rr),
        rb is Ok,
    ensures
        rr is Ok,
        steps(rb->Ok_0.1@)[0] is Copy,
        steps(rr->Ok_0@)[0] == FsStep::Copy(
            steps(rb->Ok_0.1@)[0]->Copy_1,
            steps(rb->Ok_0.1@)[0]->Copy_0,
        ),
        rb->Ok_0.0@ == steps(rb->Ok_0.1@)[0]->Copy_1,
{
}

/// A new project's configuration is written to the file that a later read of
/// the project reads, whether the directory is then seen as new or as
/// existing under its own (already canonical) path.
pub proof fn lemma_add_then_get(
    root: Seq<char>,
    name: Seq<char>,
    ra: Result<Vec<FsOp>, NeuxcfgError>,
    state: DirState,
    rg: Result<Vec<FsOp>, NeuxcfgError>,
)
    requires
        add_outcome(root, name, false, ra),
        ra is Ok,
        get_outcome(root, name, state, true, rg),
        match state {
            DirState::Missing => true,
            DirState::Present { canonical_dir, canonical_root } => canonical_dir@ == path_join(
                root,
                name,
            ) && canonical_root@ == root,
        },
    ensures
        rg is Ok,
        steps(rg->Ok_0@)[1] is ReadConfig,
        steps(ra->Ok_0@)[2] == FsStep::WriteAtomic(steps(rg->Ok_0@)[1]->ReadConfig_0),
{
    lemma_project_dir_under_root(root, name);
}

/// An overwrite writes the given configuration to the file that a later read
/// of the project reads.
pub proof fn lemma_set_then_get(
    root: Seq<char>,
    name: Seq<char>,
    c: ProjectConfig,
    state: DirState,
    rs: Result<Vec<FsOp>, NeuxcfgError>,
    rg: Result<Vec<FsOp>, NeuxcfgError>,
)
    requires
        set_outcome(root, name, c, state, true, rs),
        rs is Ok,
        get_outcome(root, name, state, true, rg),
    ensures
        rg is Ok,
        steps(rg->Ok_0@)[1] is ReadConfig,
        steps(rs->Ok_0@)[3] == FsStep::WriteAtomic(steps(rg->Ok_0@)[1]->ReadConfig_0),
        written_content(rs->Ok_0@[3]) matches Some(FileContent::Project(w)) && same_config(w, c),
{
}

/// Listing yields only names that pass the name check and are not `.`.
pub proof fn lemma_listed_names_valid(es: Seq<DirEntryInfo>)
    ensures
        forall|i: int|
            0 <= i < listed_names(es).len() ==> name_problem(#[trigger] listed_names(es)[i]) is None
                && listed_names(es)[i] != "."@,
    decreases es.len(),
{
    if es.len() > 0 {
        lemma_listed_names_valid(es.drop_last());
    }
}

/// An overwrite keeps the previous file as its backup, and a restore copies
/// that backup back over the configuration file.
pub proof fn lemma_restore_undoes_set(
    root: Seq<char>,
    name: Seq<char>,
    c: ProjectConfig,
    state: DirState,
    rs: Result<Vec<FsOp>, NeuxcfgError>,
    rr: Result<Vec<FsOp>, NeuxcfgError>,
)
    requires
        set_outcome(root, name, c, state, true, rs),
        rs is Ok,
        restore_outcome(root, name, state, true, rr),
    ensures
        rr is Ok,
        steps(rs->Ok_0@)[0] is Copy,
        steps(rr->Ok_0@)[0] == FsStep::Copy(
            steps(rs->Ok_0@)[0]->Copy_1,
            steps(rs->Ok_0@)[0]->Copy_0,
        ),
{
}

proof fn lemma_config_file_not_root(root: Seq<char>)
    ensures
        path_join(root, "config.cfg"@) != root,
{
    reveal_strlit("config.cfg");
    assert(path_join(root, "config.cfg"@).len() > root.len());
}

/// The plan of an initialisation succeeds on the state an initialisation
/// left, and any run of it from there leaves that state as it is.
proof fn lemma_init_again(root: Seq<char>, ops: Seq<FsOp>, s: Map<Seq<char>, Node>)
    requires
        steps(ops) == init_steps(root),
        s.contains_key(root),
        s[root] == (Node::Dir { mode: 0o700 }),
        s.contains_key(path_join(root, "config.cfg"@)),
        s[path_join(root, "config.cfg"@)] == with_mode(s[path_join(root, "config.cfg"@)], 0o600),
    ensures
        plan_runs(ops, s, s),
        forall|t: Map<Seq<char>, Node>| #[trigger] plan_runs(ops, s, t) ==> t == s,
{
    let cfg = path_join(root, "config.cfg"@);
    assert(ops.len() == 4) by {
        assert(steps(ops).len() == 4);
    }
    assert(ops[0]@ == steps(ops)[0]);
    assert(ops[1]@ == steps(ops)[1]);
    assert(ops[2]@ == steps(ops)[2]);
    assert(ops[3]@ == steps(ops)[3]);
    assert(s.insert(root, with_mode(s[root], 0o700)) =~= s);
    assert(s.insert(cfg, with_mode(s[cfg], 0o600)) =~= s);
    let same = seq![s, s, s, s, s];
    assert(forall|i: int| 0 <= i < ops.len() ==> step_runs(ops[i], #[trigger] same[i], same[i + 1])) by {
        assert(step_runs(ops[0], s, s));
        assert(step_runs(ops[1], s, s));
        assert(step_runs(ops[2], s, s));
        assert(step_runs(ops[3], s, s));
    }
    assert(same.len() == ops.len() + 1);
    assert forall|t: Map<Seq<char>, Node>| #[trigger] plan_runs(ops, s, t) implies t == s by {
        let st = choose|st: Seq<Map<Seq<char>, Node>>|
            #![trigger st.len()]
            st.len() == ops.len() + 1 && st[0] == s && st[ops.len() as int] == t && forall|i: int|
                0 <= i < ops.len() ==> step_runs(ops[i], #[trigger] st[i], st[i + 1]);
        assert(step_runs(ops[0], st[0], st[1]));
        assert(st[1] == s);
        assert(step_runs(ops[1], st[1], st[2]));
        assert(st[2] == s);
        assert(step_runs(ops[2], st[2], st[3]));
        assert(st[3] == s);
        assert(step_runs(ops[3], st[3], st[4]));
        assert(st[4] == s);
    }
}

/// Initialising twice is initialising once: on any file system where an
/// initialisation succeeds, a second one succeeds too and changes nothing.
/// The first changes nothing but the root (with any missing parents, all
/// created as directories) and its `config.cfg`.
pub proof fn lemma_init_idempotent(
    root: Seq<char>,
    first: Seq<FsOp>,
    second: Seq<FsOp>,
    s0: Map<Seq<char>, Node>,
    s1: Map<Seq<char>, Node>,
)
    requires
        steps(first) == init_steps(root),
        steps(second) == init_steps(root),
        plan_runs(first, s0, s1),
    ensures
        plan_runs(second, s1, s1),
        forall|s2: Map<Seq<char>, Node>| #[trigger] plan_runs(second, s1, s2) ==> s2 == s1,
        forall|q: Seq<char>|
            (#[trigger] s1.contains_key(q) != s0.contains_key(q) || (s0.contains_key(q) && s1[q]
                != s0[q])) ==> q == path_join(root, "config.cfg"@) || path_starts_with(root, q),
{
    let cfg = path_join(root, "config.cfg"@);
    lemma_config_file_not_root(root);
    assert(first.len() == 4) by {
        assert(steps(first).len() == 4);
    }
    assert(first[0]@ == steps(first)[0]);
    assert(first[1]@ == steps(first)[1]);
    assert(first[2]@ == steps(first)[2]);
    assert(first[3]@ == steps(first)[3]);
    let st = choose|st: Seq<Map<Seq<char>, Node>>|
        #![trigger st.len()]
        st.len() == first.len() + 1 && st[0] == s0 && st[first.len() as int] == s1 && forall|i: int|
            0 <= i < first.len() ==> step_runs(first[i], #[trigger] st[i], st[i + 1]);
    let a = st[1];
    let b = st[2];
    let c = st[3];
    assert(step_runs(first[0], s0, a));
    assert(step_runs(first[1], a, b));
    assert(step_runs(first[2], b, c));
    assert(step_runs(first[3], c, s1));
    assert(a.contains_key(root) && a[root] is Dir);
    assert(b == a.insert(root, Node::Dir { mode: 0o700 }));
    assert(c.contains_key(root) && c[root] == (Node::Dir { mode: 0o700 }));
    assert(c.contains_key(cfg));
    assert(s1 == c.insert(cfg, with_mode(c[cfg], 0o600)));
    assert(s1[root] == (Node::Dir { mode: 0o700 }));
    assert(with_mode(with_mode(c[cfg], 0o600), 0o600) == with_mode(c[cfg], 0o600));
    lemma_init_again(root, second, s1);
    assert forall|q: Seq<char>|
        (#[trigger] s1.contains_key(q) != s0.contains_key(q) || (s0.contains_key(q) && s1[q]
            != s0[q])) implies q == cfg || path_starts_with(root, q) by {
        if q != cfg && !path_starts_with(root, q) {
            assert(path_components(root).is_prefix_of(path_components(root)));
            assert(q != root);
            assert(s1.contains_key(q) == c.contains_key(q));
            assert(c.contains_key(q) == b.contains_key(q));
            assert(b.contains_key(q) == a.contains_key(q));
            if s0.contains_key(q) {
                assert(a.contains_key(q) && a[q] == s0[q]);
                assert(s1[q] == s0[q]);
            } else {
                assert(!a.contains_key(q));
            }
        }
    }
}

/// Which names pass the name check: exactly the non-empty ones that hold
/// no `/`, no `\`, no NUL and no two dots in a row. Every other character is
/// allowed (`my-app`, `app2`, `café_project-β`).
pub proof fn lemma_name_rule(name: Seq<char>)
    ensures
        name_problem(name) is None <==> (name.len() > 0 && !name.contains('/') && !name.contains('\\') && !name.contains('\0')
            && forall|i: int| 0 <= i < name.len() - 1 ==> !(#[trigger] name[i] == '.' && name[i + 1] == '.')),
{
}

/// A valid name that is not taken yet is added: its directory, made mode
/// `0o700`, directly under the root, and its configuration file written in
/// it, made mode `0o600`.
pub proof fn lemma_valid_name_is_added(root: Seq<char>, name: Seq<char>, r: Result<Vec<FsOp>, NeuxcfgError>)
    requires
        (name.len() > 0 && !name.contains('/') && !name.contains('\\') && !name.contains('\0')
            && forall|i: int| 0 <= i < name.len() - 1 ==> !(#[trigger] name[i] == '.' && name[i + 1] == '.')),
        add_outcome(root, name, false, r),
    ensures
        r is Ok,
        steps(r->Ok_0@) == seq![
            FsStep::CreateDir(path_join(root, name)),
            FsStep::SetMode(path_join(root, name), 0o700),
            FsStep::WriteAtomic(path_join(path_join(root, name), name + ".config.cfg"@)),
            FsStep::SetMode(path_join(path_join(root, name), name + ".config.cfg"@), 0o600),
        ],
{
    lemma_name_rule(name);
}

/// Listing misses no project: every directory entry with a Unicode name,
/// other than `.`, whose name passes the name check is listed.
pub proof fn lemma_listing_complete(es: Seq<DirEntryInfo>)
    ensures
        forall|i: int|
            0 <= i < es.len() && (#[trigger] es[i]).is_dir && es[i].name is Some && es[i].name->0@
                != "."@ && {
                let n = es[i].name->0@;
                (n.len() > 0 && !n.contains('/') && !n.contains('\\') && !n.contains('\0')
            && forall|i: int| 0 <= i < n.len() - 1 ==> !(#[trigger] n[i] == '.' && n[i + 1] == '.'))
            } ==> listed_names(es).contains(es[i].name->0@),
    decreases es.len(),
{
    reveal_strlit("..");
    if es.len() > 0 {
        lemma_listing_complete(es.drop_last());
        let prev = listed_names(es.drop_last());
        assert forall|i: int|
            0 <= i < es.len() && (#[trigger] es[i]).is_dir && es[i].name is Some && es[i].name->0@
                != "."@ && {
                let n = es[i].name->0@;
                (n.len() > 0 && !n.contains('/') && !n.contains('\\') && !n.contains('\0')
            && forall|i: int| 0 <= i < n.len() - 1 ==> !(#[trigger] n[i] == '.' && n[i + 1] == '.'))
            } implies listed_names(es).contains(es[i].name->0@) by {
            let n = es[i].name->0@;
            lemma_name_rule(n);
            assert(n != ".."@) by {
                if n == ".."@ {
                    assert(n[0] == '.' && n[1] == '.');
                }
            }
            if i < es.len() - 1 {
                assert(es.drop_last()[i] == es[i]);
                assert(prev.contains(n));
                let j = choose|j: int| 0 <= j < prev.len() && prev[j] == n;
                if is_listed(es.last()) {
                    assert(listed_names(es)[j] == n);
                } else {
                    assert(listed_names(es) == prev);
                }
            } else {
                assert(is_listed(es.last()));
                assert(listed_names(es)[prev.len() as int] == n);
            }
        }
    }
}

/// Some directory entry of `es` has the Unicode name `n`.
pub open spec fn names_a_directory(es: Seq<DirEntryInfo>, n: Seq<char>) -> bool {
    exists|i: int|
        0 <= i < es.len() && (#[trigger] es[i]).is_dir && es[i].name is Some && es[i].name->0@ == n
}

/// Listing invents nothing: every listed name is the name of a directory
/// entry.
pub proof fn lemma_listing_sound(es: Seq<DirEntryInfo>)
    ensures
        forall|j: int|
            0 <= j < listed_names(es).len() ==> names_a_directory(es, #[trigger] listed_names(es)[j]),
    decreases es.len(),
{
    if es.len() > 0 {
        lemma_listing_sound(es.drop_last());
        let prev = listed_names(es.drop_last());
        assert forall|j: int| 0 <= j < listed_names(es).len() implies names_a_directory(
            es,
            #[trigger] listed_names(es)[j],
        ) by {
            if j < prev.len() {
                assert(listed_names(es)[j] == prev[j]);
                assert(names_a_directory(es.drop_last(), prev[j]));
                let i = choose|i: int|
                    0 <= i < es.drop_last().len() && (#[trigger] es.drop_last()[i]).is_dir
                        && es.drop_last()[i].name is Some && es.drop_last()[i].name->0@ == prev[j];
                assert(es[i] == es.drop_last()[i]);
            } else {
                assert(es[es.len() - 1] == es.last());
            }
        }
    }
}

/// An update writes every field of the delta's `project` table: each key
/// there other than `name` and `path` is an extra field of the configuration
/// read back from the merged document, holding the delta's value when that
/// value is not a table.
pub proof fn lemma_update_writes_delta_fields(
    delta: TomlValue,
    j: int,
    merged: TomlValue,
    c: ProjectConfig,
)
    requires
        delta is Table,
        0 <= j < delta->Table_0.entries.len(),
        delta->Table_0.entries[j].0@ == "project"@,
        delta->Table_0.entries[j].1 is Table,
        overlays(merged, delta),
        is_readable(merged),
        reads_as(merged, c),
    ensures
        forall|i: int|
            #![trigger delta->Table_0.entries[j].1->Table_0.entries[i]]
            0 <= i < delta->Table_0.entries[j].1->Table_0.entries.len() && {
                let k = delta->Table_0.entries[j].1->Table_0.entries[i].0@;
                k != "name"@ && k != "path"@
            } ==> {
                let e = delta->Table_0.entries[j].1->Table_0.entries[i];
                &&& c.project.extra.map().contains_key(e.0@)
                &&& !(e.1 is Table) ==> same_value(c.project.extra.map()[e.0@], e.1)
            },
{
    let pd = delta->Table_0.entries[j].1->Table_0;
    let pm = merged->Table_0.map()[project_key()]->Table_0.map();
    let em = c.project.extra.map();
    assert(overlays(merged->Table_0.map()[project_key()], delta->Table_0.entries[j].1));
    assert forall|i: int|
        #![trigger delta->Table_0.entries[j].1->Table_0.entries[i]]
        0 <= i < pd.entries.len() && {
            let k = pd.entries[i].0@;
            k != "name"@ && k != "path"@
        } implies {
            let e = pd.entries[i];
            &&& em.contains_key(e.0@)
            &&& !(e.1 is Table) ==> same_value(em[e.0@], e.1)
        } by {
        let e = pd.entries[i];
        assert(pd.entries[i] == delta->Table_0.entries[j].1->Table_0.entries[i]);
        assert(pm.contains_key(e.0@) && overlays(pm[e.0@], e.1));
        assert(pm.remove(name_key()).remove(path_key()).contains_key(e.0@));
        assert(em.contains_key(e.0@));
        if !(e.1 is Table) {
            assert(same_value(em[e.0@], pm.remove(name_key()).remove(path_key())[e.0@]));
            lemma_same_value_trans(em[e.0@], pm[e.0@], e.1);
        }
    }
}

} // verus!
