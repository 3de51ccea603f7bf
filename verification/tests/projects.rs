use neuxcfg::paths::{components, starts_with};
use neuxcfg::plan::{DirEntryInfo, DirState, FileContent, FsOp};
use neuxcfg::types::ProjectConfig;
use neuxcfg::{Neuxcfg, NeuxcfgError, Table, TomlValue};

const ROOT: &str = "/tmp/cfgroot";

fn manager() -> Neuxcfg {
    Neuxcfg::with_root(ROOT.to_string())
}

fn present(dir: &str) -> DirState {
    DirState::Present { canonical_dir: dir.to_string(), canonical_root: ROOT.to_string() }
}

fn written_config(ops: &[FsOp]) -> &ProjectConfig {
    for op in ops {
        if let FsOp::WriteAtomic(_, FileContent::Project(c)) = op {
            return c;
        }
    }
    panic!("no configuration written");
}

fn read_path(ops: &[FsOp]) -> String {
    match ops {
        [FsOp::LockShared(a), FsOp::ReadConfig(b)] if a == b => b.clone(),
        _ => panic!("not a shared-lock read"),
    }
}

fn dir_entry(name: &str) -> DirEntryInfo {
    DirEntryInfo { name: Some(name.to_string()), is_dir: true }
}

fn text(s: &str) -> TomlValue {
    TomlValue::Text(s.to_string())
}

#[test]
fn test_add_list_remove_project() {
    let cfg = manager();
    let ops = cfg.add_project("myapp", false).unwrap();
    assert!(cfg.project_exists("myapp", true).unwrap());
    let list = cfg.list_projects(&vec![dir_entry("myapp")]);
    assert!(list.contains(&"myapp".to_string()));
    let config = written_config(&ops);
    assert_eq!(config.project.name, "myapp");
    assert_eq!(config.project.path, format!("{}/myapp", ROOT));
    assert!(config.project.extra.is_empty());
    let removal = cfg.remove_project("myapp", &present("/tmp/cfgroot/myapp")).unwrap();
    assert_eq!(removal, vec![FsOp::RemoveDirAll("/tmp/cfgroot/myapp".to_string())]);
    assert!(!cfg.project_exists("myapp", false).unwrap());
    let list_after = cfg.list_projects(&vec![]);
    assert!(!list_after.contains(&"myapp".to_string()));
}

#[test]
fn test_add_existing_project_errors() {
    let cfg = manager();
    cfg.add_project("dup", false).unwrap();
    let err = cfg.add_project("dup", true).unwrap_err();
    assert_eq!(err, NeuxcfgError::ProjectAlreadyExists("dup".into()));
}

#[test]
fn test_invalid_project_name() {
    let cfg = manager();
    assert!(matches!(cfg.add_project("../escape", false), Err(NeuxcfgError::InvalidProjectName(_))));
    assert!(matches!(cfg.add_project("with/slash", false), Err(NeuxcfgError::InvalidProjectName(_))));
    assert!(matches!(
        cfg.add_project("with\\backslash", false),
        Err(NeuxcfgError::InvalidProjectName(_))
    ));
    assert!(matches!(cfg.add_project("", false), Err(NeuxcfgError::InvalidProjectName(_))));
}

#[test]
fn test_unicode_project_name() {
    let cfg = manager();
    let name = "café_project-β";
    let ops = cfg.add_project(name, false).unwrap();
    assert!(cfg.project_exists(name, true).unwrap());
    assert_eq!(written_config(&ops).project.name, name);
    let dir = format!("{}/{}", ROOT, name);
    let path = read_path(&cfg.get_project_config(name, &present(&dir), true).unwrap());
    assert_eq!(path, format!("{}/{}.config.cfg", dir, name));
    cfg.remove_project(name, &present(&dir)).unwrap();
}

#[test]
fn test_get_set_project_config_with_custom_fields() {
    let cfg = manager();
    let ops = cfg.add_project("myapp", false).unwrap();
    let mut config = written_config(&ops).duplicate();
    config.project.extra.insert("database_url".into(), text("postgres://localhost"));
    config.project.extra.insert("max_connections".into(), TomlValue::Integer(10));
    let state = present("/tmp/cfgroot/myapp");
    let plan = cfg.set_project_config("myapp", &config, &state, true).unwrap();
    let updated = written_config(&plan);
    assert_eq!(updated.project.name, "myapp");
    assert_eq!(updated.project.extra.get("database_url"), Some(&text("postgres://localhost")));
    assert_eq!(updated.project.extra.get("max_connections"), Some(&TomlValue::Integer(10)));
    let read_from = read_path(&cfg.get_project_config("myapp", &state, true).unwrap());
    assert_eq!(plan[3], FsOp::WriteAtomic(read_from.clone(), FileContent::Project(updated.duplicate())));
    assert_eq!(plan[0], FsOp::Copy(read_from.clone(), format!("{}.bak", read_from)));
    assert_eq!(plan[2], FsOp::LockExclusive(read_from));
}

#[test]
fn test_set_project_config_overwrites() {
    let cfg = manager();
    let ops = cfg.add_project("test_app", false).unwrap();
    let state = present("/tmp/cfgroot/test_app");
    let mut config = written_config(&ops).duplicate();
    config.project.extra.insert("key1".into(), text("value1"));
    cfg.set_project_config("test_app", &config, &state, true).unwrap();
    let new_config = ProjectConfig::new("test_app".into(), "/new/path".into());
    let plan = cfg.set_project_config("test_app", &new_config, &state, true).unwrap();
    let final_config = written_config(&plan);
    assert_eq!(final_config.project.path, "/new/path");
    assert!(final_config.project.extra.is_empty(), "extra fields should be cleared after overwrite");
}

#[test]
fn test_project_not_found_errors() {
    let cfg = manager();
    assert_eq!(
        cfg.get_project_config("ghost", &DirState::Missing, false).unwrap_err(),
        NeuxcfgError::ProjectNotFound("ghost".into())
    );
    assert_eq!(
        cfg.remove_project("ghost", &DirState::Missing).unwrap_err(),
        NeuxcfgError::ProjectNotFound("ghost".into())
    );
    let dummy = ProjectConfig::new("ghost".into(), "/tmp".into());
    assert_eq!(
        cfg.set_project_config("ghost", &dummy, &DirState::Missing, false).unwrap_err(),
        NeuxcfgError::ProjectNotFound("ghost".into())
    );
}

#[test]
fn test_project_exists_invalid_name() {
    let cfg = manager();
    assert!(matches!(cfg.project_exists("../bad", false), Err(NeuxcfgError::InvalidProjectName(_))));
}

#[test]
fn test_project_exists_when_root_missing() {
    let cfg = Neuxcfg::with_root("/tmp/cfgroot/no_dir".to_string());
    assert!(
        !cfg.project_exists("any", false).unwrap(),
        "project should not exist when root directory is missing"
    );
}

#[test]
fn test_list_projects_empty_when_root_missing() {
    let cfg = Neuxcfg::with_root("/tmp/cfgroot/missing_root".to_string());
    assert!(cfg.list_projects(&vec![]).is_empty());
}

#[test]
fn test_symlink_path_traversal_rejected() {
    let cfg = Neuxcfg::with_root("/tmp/x/neuxcfg".to_string());
    let state = DirState::Present {
        canonical_dir: "/tmp".to_string(),
        canonical_root: "/tmp/x/neuxcfg".to_string(),
    };
    let err = cfg.remove_project("escape", &state).unwrap_err();
    assert_eq!(err, NeuxcfgError::PathTraversal("escape".into()));
}

#[test]
fn test_project_unix_permissions() {
    let cfg = manager();
    let ops = cfg.add_project("myapp", false).unwrap();
    assert_eq!(ops[0], FsOp::CreateDir("/tmp/cfgroot/myapp".to_string()));
    assert_eq!(ops[1], FsOp::SetMode("/tmp/cfgroot/myapp".to_string(), 0o700));
    assert_eq!(ops[3], FsOp::SetMode("/tmp/cfgroot/myapp/myapp.config.cfg".to_string(), 0o600));
}

#[test]
fn invalid_name_messages() {
    assert_eq!(
        Neuxcfg::validate_project_name("").unwrap_err(),
        NeuxcfgError::InvalidProjectName("name cannot be empty".into())
    );
    assert_eq!(
        Neuxcfg::validate_project_name("a..b").unwrap_err(),
        NeuxcfgError::InvalidProjectName("invalid characters in 'a..b'".into())
    );
    assert!(Neuxcfg::validate_project_name("a\0b").is_err());
    assert!(Neuxcfg::validate_project_name(".hidden").is_ok());
    assert!(Neuxcfg::validate_project_name("a.b").is_ok());
    assert!(Neuxcfg::validate_project_name(".").is_ok());
}

#[test]
fn error_texts() {
    let err = NeuxcfgError::InvalidProjectName("bad/name".into());
    assert_eq!(err.to_string(), "invalid project name: bad/name");
    assert_eq!(NeuxcfgError::ConfigDirNotFound.to_string(), "cannot determine config directory");
    assert_eq!(NeuxcfgError::ProjectAlreadyExists("x".into()).to_string(), "project 'x' already exists");
    assert_eq!(NeuxcfgError::ProjectNotFound("x".into()).to_string(), "project 'x' not found");
    assert_eq!(
        NeuxcfgError::PathTraversal("x".into()).to_string(),
        "path traversal detected for project 'x'"
    );
    assert_eq!(NeuxcfgError::Io("boom".into()).to_string(), "I/O error: boom");
    assert_eq!(NeuxcfgError::TomlParse("p".into()).to_string(), "TOML parse error: p");
    assert_eq!(NeuxcfgError::TomlSerialize("s".into()).to_string(), "TOML serialize error: s");
    assert_eq!(NeuxcfgError::ValidationError("v".into()).to_string(), "validation error: v");
    assert_eq!(NeuxcfgError::LockError("l".into()).to_string(), "lock error: l");
}

#[test]
fn listing_filters_entries() {
    let cfg = manager();
    let entries = vec![
        dir_entry("alpha"),
        DirEntryInfo { name: Some("file.txt".to_string()), is_dir: false },
        dir_entry("."),
        dir_entry(".."),
        DirEntryInfo { name: None, is_dir: true },
        dir_entry("bad\\name"),
        dir_entry("beta"),
    ];
    assert_eq!(cfg.list_projects(&entries), vec!["alpha".to_string(), "beta".to_string()]);
}

#[test]
fn traversal_check_is_by_component() {
    let cfg = Neuxcfg::with_root("/a/b".to_string());
    let inside = DirState::Present { canonical_dir: "/a/b/p".to_string(), canonical_root: "/a/b".to_string() };
    assert_eq!(cfg.secure_project_dir("p", &inside).unwrap(), "/a/b/p");
    let sibling = DirState::Present { canonical_dir: "/a/bc".to_string(), canonical_root: "/a/b".to_string() };
    assert_eq!(cfg.secure_project_dir("p", &sibling).unwrap_err(), NeuxcfgError::PathTraversal("p".into()));
    assert_eq!(cfg.secure_project_dir("p", &DirState::Missing).unwrap(), "/a/b/p");
    assert_eq!(
        cfg.project_config_path("p", &inside).unwrap(),
        "/a/b/p/p.config.cfg"
    );
}

#[test]
fn backup_and_restore_plans() {
    let cfg = manager();
    let state = present("/tmp/cfgroot/data");
    let (bak, ops) = cfg.backup_project("data", &state, true).unwrap();
    let file = "/tmp/cfgroot/data/data.config.cfg".to_string();
    assert_eq!(bak, format!("{}.bak", file));
    assert!(bak.ends_with(".cfg.bak"));
    assert_eq!(ops, vec![FsOp::Copy(file.clone(), bak.clone()), FsOp::SetMode(bak.clone(), 0o600)]);
    let back = cfg.restore_project("data", &state, true).unwrap();
    assert_eq!(back, vec![FsOp::Copy(bak.clone(), file.clone()), FsOp::SetMode(file.clone(), 0o600)]);
    assert_eq!(
        cfg.backup_project("data", &state, false).unwrap_err(),
        NeuxcfgError::ProjectNotFound(file)
    );
    assert_eq!(
        cfg.restore_project("data", &state, false).unwrap_err(),
        NeuxcfgError::ProjectNotFound("backup file not found".into())
    );
}

#[test]
fn set_rejects_invalid_extra_before_anything_else() {
    let cfg = manager();
    let mut config = ProjectConfig::new("x".into(), "/x".into());
    config.project.extra.insert("_hidden".into(), TomlValue::Boolean(true));
    let err = cfg.set_project_config("../bad", &config, &DirState::Missing, false).unwrap_err();
    assert_eq!(
        err,
        NeuxcfgError::ValidationError(
            "invalid extra key '_hidden' (must not start with '_' or contain '.')".into()
        )
    );
}

#[test]
fn update_merges_delta_into_current() {
    let cfg = manager();
    let state = present("/tmp/cfgroot/server");
    let mut current = ProjectConfig::new("server".into(), "/srv".into());
    current.project.extra.insert("debug".into(), TomlValue::Boolean(false));
    current.project.extra.insert("keep".into(), TomlValue::Integer(1));
    let mut limits = Table::new();
    limits.insert("max_connections".into(), TomlValue::Integer(100));
    let mut project = Table::new();
    project.insert("debug".into(), TomlValue::Boolean(true));
    project.insert("limits".into(), TomlValue::Table(limits));
    let mut delta = Table::new();
    delta.insert("project".into(), TomlValue::Table(project));
    let plan = cfg
        .update_project_config("server", &current, &TomlValue::Table(delta), &state, true)
        .unwrap();
    let written = written_config(&plan);
    assert_eq!(written.project.name, "server");
    assert_eq!(written.project.path, "/srv");
    assert_eq!(written.project.extra.get("debug"), Some(&TomlValue::Boolean(true)));
    assert_eq!(written.project.extra.get("keep"), Some(&TomlValue::Integer(1)));
    match written.project.extra.get("limits") {
        Some(TomlValue::Table(t)) => assert_eq!(t.get("max_connections"), Some(&TomlValue::Integer(100))),
        other => panic!("unexpected {:?}", other),
    }
}

#[test]
fn update_errors() {
    let cfg = manager();
    let state = present("/tmp/cfgroot/server");
    let current = ProjectConfig::new("server".into(), "/srv".into());
    let err = cfg
        .update_project_config("server", &current, &TomlValue::Integer(5), &state, true)
        .unwrap_err();
    assert_eq!(err, NeuxcfgError::TomlSerialize("unsupported rust type".into()));
    let mut project = Table::new();
    project.insert("name".into(), TomlValue::Integer(3));
    let mut delta = Table::new();
    delta.insert("project".into(), TomlValue::Table(project));
    let err = cfg
        .update_project_config("server", &current, &TomlValue::Table(delta), &state, true)
        .unwrap_err();
    assert!(matches!(err, NeuxcfgError::TomlParse(_)));
}

#[test]
fn added_file_is_the_one_read_back() {
    let cfg = manager();
    let ops = cfg.add_project("fresh", false).unwrap();
    let read_new = read_path(&cfg.get_project_config("fresh", &DirState::Missing, true).unwrap());
    let read_existing =
        read_path(&cfg.get_project_config("fresh", &present("/tmp/cfgroot/fresh"), true).unwrap());
    assert!(matches!(&ops[2], FsOp::WriteAtomic(p, _) if *p == read_new));
    assert_eq!(read_new, read_existing);
}

#[test]
fn restore_after_set_copies_the_backup_back() {
    let cfg = manager();
    let state = present("/tmp/cfgroot/app");
    let config = ProjectConfig::new("app".into(), "/srv/app".into());
    let set_plan = cfg.set_project_config("app", &config, &state, true).unwrap();
    let restore_plan = cfg.restore_project("app", &state, true).unwrap();
    match (&set_plan[0], &restore_plan[0]) {
        (FsOp::Copy(a, b), FsOp::Copy(c, d)) => {
            assert_eq!(a, d);
            assert_eq!(b, c);
        }
        other => panic!("unexpected {:?}", other),
    }
}

#[test]
fn project_directory_is_one_level_below_root() {
    let cfg = manager();
    let dir = cfg.project_dir("proj").unwrap();
    let mut expected = components(ROOT);
    expected.push("proj".to_string());
    assert_eq!(components(&dir), expected);
    let dot = cfg.project_dir(".").unwrap();
    assert!(starts_with(&dot, ROOT));
    assert_eq!(components(&dot), components(ROOT));
}

#[test]
fn reading_takes_a_shared_lock_first() {
    let cfg = manager();
    let ops = cfg.get_project_config("app", &present("/tmp/cfgroot/app"), true).unwrap();
    assert_eq!(
        ops,
        vec![
            FsOp::LockShared("/tmp/cfgroot/app/app.config.cfg".to_string()),
            FsOp::ReadConfig("/tmp/cfgroot/app/app.config.cfg".to_string()),
        ]
    );
}
