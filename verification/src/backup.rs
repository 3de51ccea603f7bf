use vstd::prelude::*;
use crate::error::NeuxcfgError;
use crate::paths::{path_with_extension, with_extension};
use crate::plan::{FsOp, FsStep, steps};

verus! {

/// The backup of a configuration file: the file with the extension
/// `cfg.bak`.
pub open spec fn backup_of(path: Seq<char>) -> Seq<char> {
    path_with_extension(path, "cfg.bak"@)
}

/// `e` is a `ProjectNotFound` error carrying `s`.
pub open spec fn not_found(e: NeuxcfgError, s: Seq<char>) -> bool {
    e is ProjectNotFound && e->ProjectNotFound_0@ == s
}

/// The path of a configuration file's backup.
pub fn backup_path(config_path: &str) -> (r: String)
    ensures
        r@ == backup_of(config_path@),
{
    with_extension(config_path, "cfg.bak")
}

/// Backs up a configuration file, given whether it exists: copies it to
/// its backup (mode `0o600`) and returns the backup's path.
pub fn backup_project_config(config_path: &str, exists: bool) -> (r: Result<(String, Vec<FsOp>), NeuxcfgError>)
    ensures
        (if exists {
            &&& r is Ok
            &&& r->Ok_0.0@ == backup_of(config_path@)
            &&& steps(r->Ok_0.1@) == seq![
                FsStep::Copy(config_path@, backup_of(config_path@)),
                FsStep::SetMode(backup_of(config_path@), 0o600),
            ]
        } else {
            r is Err && not_found(r->Err_0, config_path@)
        }),
{
    if !exists {
        return Err(NeuxcfgError::ProjectNotFound(config_path.to_owned()));
    }
    let bak = backup_path(config_path);
    let ops = vec![FsOp::Copy(config_path.to_owned(), bak.clone()), FsOp::SetMode(bak.clone(), 0o600)];
    proof {
        assert(steps(ops@) =~= seq![
            FsStep::Copy(config_path@, backup_of(config_path@)),
            FsStep::SetMode(backup_of(config_path@), 0o600),
        ]);
    }
    Ok((bak, ops))
}

/// Restores a configuration file from its backup, given whether the backup
/// exists: copies the backup over the file (mode `0o600`).
pub fn restore_project_config(config_path: &str, backup_exists: bool) -> (r: Result<Vec<FsOp>, NeuxcfgError>)
    ensures
        (if backup_exists {
            r is Ok && steps(r->Ok_0@) == seq![
                FsStep::Copy(backup_of(config_path@), config_path@),
                FsStep::SetMode(config_path@, 0o600),
            ]
        } else {
            r is Err && not_found(r->Err_0, "backup file not found"@)
        }),
{
    let bak = backup_path(config_path);
    if !backup_exists {
        return Err(NeuxcfgError::ProjectNotFound(String::from_str("backup file not found")));
    }
    let ops = vec![FsOp::Copy(bak, config_path.to_owned()), FsOp::SetMode(config_path.to_owned(), 0o600)];
    proof {
        assert(steps(ops@) =~= seq![
            FsStep::Copy(backup_of(config_path@), config_path@),
            FsStep::SetMode(config_path@, 0o600),
        ]);
    }
    Ok(ops)
}

} // verus!
