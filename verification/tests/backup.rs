use neuxcfg::backup::{backup_path, backup_project_config, restore_project_config};
use neuxcfg::paths::with_extension;
use neuxcfg::plan::FsOp;
use neuxcfg::NeuxcfgError;

#[test]
fn extension_replacement() {
    assert_eq!(with_extension("/tmp/project.cfg", "cfg.bak"), "/tmp/project.cfg.bak");
    assert_eq!(with_extension("/tmp/a/app.config.cfg", "cfg.bak"), "/tmp/a/app.config.cfg.bak");
    assert_eq!(with_extension("/tmp/settings", "cfg.bak"), "/tmp/settings.cfg.bak");
    assert_eq!(with_extension("/tmp/.hidden", "cfg.bak"), "/tmp/.hidden.cfg.bak");
    assert_eq!(with_extension("dir/file.txt/", "md"), "dir/file.md");
    assert_eq!(with_extension("dir/file.txt/.", "md"), "dir/file.md");
    assert_eq!(with_extension("a..", "x"), "a..x");
    assert_eq!(with_extension("dir/..", "x"), "dir/..");
    assert_eq!(with_extension("/", "x"), "/");
    assert_eq!(with_extension("", "x"), "");
    assert_eq!(with_extension("name.tar.gz", ""), "name.tar");
}

#[test]
fn backup_plan_for_file() {
    let (bak, ops) = backup_project_config("/tmp/project.cfg", true).unwrap();
    assert_eq!(bak, "/tmp/project.cfg.bak");
    assert_eq!(
        ops,
        vec![
            FsOp::Copy("/tmp/project.cfg".to_string(), bak.clone()),
            FsOp::SetMode(bak.clone(), 0o600)
        ]
    );
    assert_eq!(
        backup_project_config("/tmp/missing.cfg", false).unwrap_err(),
        NeuxcfgError::ProjectNotFound("/tmp/missing.cfg".into())
    );
}

#[test]
fn restore_plan_for_file() {
    let ops = restore_project_config("/tmp/settings.cfg", true).unwrap();
    assert_eq!(
        ops,
        vec![
            FsOp::Copy("/tmp/settings.cfg.bak".to_string(), "/tmp/settings.cfg".to_string()),
            FsOp::SetMode("/tmp/settings.cfg".to_string(), 0o600)
        ]
    );
    assert_eq!(
        restore_project_config("/tmp/settings.cfg", false).unwrap_err(),
        NeuxcfgError::ProjectNotFound("backup file not found".into())
    );
    assert_eq!(backup_path("/tmp/settings.cfg"), "/tmp/settings.cfg.bak");
}
