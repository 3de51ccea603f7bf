use neuxcfg::plan::{FileContent, FsOp};
use neuxcfg::{CargoEnv, GlobalConfig, Neuxcfg};

fn no_env() -> CargoEnv {
    CargoEnv {
        pkg_name: None,
        pkg_version: None,
        edition: None,
        pkg_description: None,
        pkg_authors: None,
        pkg_license: None,
        pkg_repository: None,
        pkg_homepage: None,
        pkg_documentation: None,
    }
}

#[test]
fn test_init_creates_structure() {
    let cfg = Neuxcfg::with_root("/tmp/t/neuxcfg".to_string());
    let ops = cfg.init(GlobalConfig::from_cargo(&no_env()));
    assert_eq!(ops.len(), 4);
    assert_eq!(ops[0], FsOp::CreateDirAll("/tmp/t/neuxcfg".to_string()));
    assert_eq!(ops[1], FsOp::SetMode("/tmp/t/neuxcfg".to_string(), 0o700));
    match &ops[2] {
        FsOp::CreateFileIfAbsent(p, FileContent::Global(g)) => {
            assert_eq!(p, "/tmp/t/neuxcfg/config.cfg");
            assert_eq!(g.name, "neuxcfg");
        }
        other => panic!("unexpected step {:?}", other),
    }
    assert_eq!(ops[3], FsOp::SetMode("/tmp/t/neuxcfg/config.cfg".to_string(), 0o600));
}

#[test]
fn test_init_idempotent() {
    let cfg = Neuxcfg::with_root("/tmp/t/neuxcfg".to_string());
    let first = cfg.init(GlobalConfig::from_cargo(&no_env()));
    let second = cfg.init(GlobalConfig::from_cargo(&no_env()));
    assert_eq!(first, second);
    assert!(matches!(first[2], FsOp::CreateFileIfAbsent(_, _)));
}

#[test]
fn test_root_custom() {
    let cfg = Neuxcfg::with_root("/var/tmp/custom".to_string());
    assert_eq!(cfg.root(), "/var/tmp/custom");
    let ops = cfg.init(GlobalConfig::from_cargo(&no_env()));
    assert!(matches!(&ops[2], FsOp::CreateFileIfAbsent(p, _) if p == "/var/tmp/custom/config.cfg"));
}

#[test]
fn init_root_with_trailing_separator() {
    let cfg = Neuxcfg::with_root("/var/tmp/custom/".to_string());
    let ops = cfg.init(GlobalConfig::from_cargo(&no_env()));
    assert!(matches!(&ops[2], FsOp::CreateFileIfAbsent(p, _) if p == "/var/tmp/custom/config.cfg"));
}

#[test]
fn new_uses_config_dir() {
    let cfg = Neuxcfg::from_config_dir(Some("/home/u/.config".to_string())).unwrap();
    assert_eq!(cfg.root(), "/home/u/.config/neuxcfg");
    let err = Neuxcfg::from_config_dir(None).err().unwrap();
    assert_eq!(err, neuxcfg::NeuxcfgError::ConfigDirNotFound);
    match Neuxcfg::new() {
        Ok(c) => assert!(c.root().ends_with("neuxcfg")),
        Err(e) => assert_eq!(e, neuxcfg::NeuxcfgError::ConfigDirNotFound),
    }
}

#[test]
fn global_config_defaults() {
    let g = GlobalConfig::from_cargo(&no_env());
    assert_eq!(g.name, "neuxcfg");
    assert_eq!(g.version, "0.3.0");
    assert_eq!(g.edition, "2024");
    assert_eq!(
        g.description,
        "A production\u{2011}ready library for secure configuration management."
    );
    assert_eq!(g.authors, vec!["neuxdotdev <neuxdev1@gmail.com>".to_string()]);
    assert_eq!(g.license, "MIT");
    assert_eq!(g.repository, "https://github.com/neuxdotdev/neuxcfg");
    assert_eq!(g.homepage, "");
    assert_eq!(g.documentation, "");
}

#[test]
fn global_config_from_variables() {
    let mut env = no_env();
    env.pkg_name = Some("app".to_string());
    env.pkg_authors = Some("a <a@x>:b <b@y>::".to_string());
    env.pkg_homepage = Some("https://h".to_string());
    let g = GlobalConfig::from_cargo(&env);
    assert_eq!(g.name, "app");
    assert_eq!(g.version, "0.3.0");
    assert_eq!(
        g.authors,
        vec!["a <a@x>".to_string(), "b <b@y>".to_string(), "".to_string(), "".to_string()]
    );
    assert_eq!(g.homepage, "https://h");
    assert_eq!(g.authors.join(":"), "a <a@x>:b <b@y>::");
}
