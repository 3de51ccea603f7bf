use neuxcfg::atomic::temp_file_name;
use neuxcfg::merge::deep_merge;
use neuxcfg::paths::{components, join_path, starts_with};
use neuxcfg::text::split_char;
use neuxcfg::validate::validate_extra;
use neuxcfg::{NeuxcfgError, ProjectConfig, Table, TomlValue};

fn text(s: &str) -> TomlValue {
    TomlValue::Text(s.to_string())
}

fn table(pairs: Vec<(&str, TomlValue)>) -> Table {
    let mut t = Table::new();
    for (k, v) in pairs {
        t.insert(k.to_string(), v);
    }
    t
}

#[test]
fn deep_merge_doc_example() {
    let mut base = TomlValue::Table(table(vec![
        ("project", TomlValue::Table(table(vec![("name", text("old"))]))),
        ("limits", TomlValue::Table(table(vec![("max", TomlValue::Integer(10))]))),
    ]));
    let delta = TomlValue::Table(table(vec![
        ("project", TomlValue::Table(table(vec![("name", text("new"))]))),
        ("limits", TomlValue::Table(table(vec![("min", TomlValue::Integer(1))]))),
    ]));
    deep_merge(&mut base, &delta);
    let expected = TomlValue::Table(table(vec![
        ("project", TomlValue::Table(table(vec![("name", text("new"))]))),
        (
            "limits",
            TomlValue::Table(table(vec![("max", TomlValue::Integer(10)), ("min", TomlValue::Integer(1))])),
        ),
    ]));
    assert_eq!(base, expected);
}

#[test]
fn deep_merge_replaces_non_tables() {
    let mut base = TomlValue::Table(table(vec![("a", TomlValue::Integer(1))]));
    let delta = TomlValue::Array(vec![TomlValue::Boolean(true), TomlValue::Float(1.5f64.to_bits())]);
    deep_merge(&mut base, &delta);
    assert_eq!(base, delta);
    let mut scalar = TomlValue::Integer(7);
    let tbl = TomlValue::Table(table(vec![("x", text("y"))]));
    deep_merge(&mut scalar, &tbl);
    assert_eq!(scalar, tbl);
}

#[test]
fn deep_merge_empty_delta_keeps_base() {
    let original = TomlValue::Table(table(vec![("a", TomlValue::Integer(1)), ("b", text("x"))]));
    let mut base = TomlValue::Table(table(vec![("a", TomlValue::Integer(1)), ("b", text("x"))]));
    deep_merge(&mut base, &TomlValue::Table(Table::new()));
    assert_eq!(base, original);
}

#[test]
fn table_insert_replaces() {
    let mut t = Table::new();
    assert_eq!(t.insert("k".into(), TomlValue::Integer(1)), None);
    assert_eq!(t.insert("k".into(), TomlValue::Integer(2)), Some(TomlValue::Integer(1)));
    assert_eq!(t.len(), 1);
    assert_eq!(t.get("k"), Some(&TomlValue::Integer(2)));
    assert_eq!(t.get("missing"), None);
}

#[test]
fn validate_extra_doc_example() {
    let mut extra = Table::new();
    extra.insert("allowed_key".into(), text("ok"));
    assert!(validate_extra(&extra).is_ok());
    extra.insert("_bad".into(), TomlValue::Boolean(true));
    assert!(validate_extra(&extra).is_err());
}

#[test]
fn validate_extra_messages() {
    let extra = table(vec![("a.b", TomlValue::Integer(1))]);
    assert_eq!(
        validate_extra(&extra).unwrap_err(),
        NeuxcfgError::ValidationError(
            "invalid extra key 'a.b' (must not start with '_' or contain '.')".into()
        )
    );
    let nested = table(vec![(
        "when",
        TomlValue::Array(vec![TomlValue::Table(table(vec![(
            "at",
            TomlValue::Datetime("1979-05-27T07:32:00Z".to_string()),
        )]))]),
    )]);
    match validate_extra(&nested).unwrap_err() {
        NeuxcfgError::ValidationError(m) => {
            assert!(m.starts_with("unsupported value type in extra field: Datetime("));
            assert!(m.contains("year: 1979"));
        }
        other => panic!("unexpected {:?}", other),
    }
    let fine = table(vec![
        ("s", text("x")),
        ("i", TomlValue::Integer(-3)),
        ("f", TomlValue::Float(0.25f64.to_bits())),
        ("b", TomlValue::Boolean(false)),
        ("arr", TomlValue::Array(vec![TomlValue::Integer(1), text("two")])),
        ("tbl", TomlValue::Table(table(vec![("inner", TomlValue::Integer(1))]))),
    ]);
    assert!(validate_extra(&fine).is_ok());
}

#[test]
fn document_round_trip() {
    let mut config = ProjectConfig::new("app".into(), "/opt/app".into());
    config.project.extra.insert("api_key".into(), text("secret"));
    config.project.extra.insert("timeout".into(), TomlValue::Integer(30));
    let doc = config.to_document();
    let back = ProjectConfig::from_document(&doc).unwrap();
    assert_eq!(back, config);
}

#[test]
fn from_document_rejects_bad_shapes() {
    let no_project = TomlValue::Table(table(vec![("other", TomlValue::Integer(1))]));
    assert!(matches!(ProjectConfig::from_document(&no_project), Err(NeuxcfgError::TomlParse(_))));
    let no_path = TomlValue::Table(table(vec![(
        "project",
        TomlValue::Table(table(vec![("name", text("a"))])),
    )]));
    assert!(matches!(ProjectConfig::from_document(&no_path), Err(NeuxcfgError::TomlParse(_))));
    let ok = TomlValue::Table(table(vec![
        ("project", TomlValue::Table(table(vec![("name", text("a")), ("path", text("/p"))]))),
        ("ignored", TomlValue::Integer(1)),
    ]));
    let c = ProjectConfig::from_document(&ok).unwrap();
    assert_eq!(c, ProjectConfig::new("a".into(), "/p".into()));
}

#[test]
fn apply_empty_delta_keeps_config() {
    let mut config = ProjectConfig::new("app".into(), "/opt/app".into());
    config.project.extra.insert("level".into(), TomlValue::Integer(3));
    let merged = config.apply_delta(&TomlValue::Table(Table::new())).unwrap();
    assert_eq!(merged, config);
}

#[test]
fn split_on_separator() {
    assert_eq!(split_char("a:b", ':'), vec!["a".to_string(), "b".to_string()]);
    assert_eq!(split_char("", ':'), vec!["".to_string()]);
    assert_eq!(split_char("a:", ':'), vec!["a".to_string(), "".to_string()]);
    assert_eq!(split_char("é:ü", ':'), vec!["é".to_string(), "ü".to_string()]);
}

#[test]
fn path_helpers() {
    assert_eq!(join_path("/a", "b"), "/a/b");
    assert_eq!(join_path("/a/", "b"), "/a/b");
    assert_eq!(join_path("", "b"), "b");
    assert_eq!(join_path("/a", "/b"), "/b");
    assert_eq!(components("/a//b/./c/"), vec!["/", "a", "b", "c"]);
    assert_eq!(components("./x"), vec![".", "x"]);
    assert_eq!(components("x/.."), vec!["x", ".."]);
    assert!(starts_with("/a/b/c", "/a/b"));
    assert!(starts_with("/a/b", "/a/b/"));
    assert!(!starts_with("/a/bc", "/a/b"));
    assert!(!starts_with("/a", "/a/b"));
}

#[test]
fn temp_names_carry_a_uuid() {
    let a = temp_file_name("cfg.config.cfg");
    let b = temp_file_name("cfg.config.cfg");
    assert!(a.starts_with(".cfg.config.cfg.tmp."));
    let u = &a[".cfg.config.cfg.tmp.".len()..];
    assert_eq!(u.len(), 36);
    assert_eq!(u.as_bytes()[14], b'4');
    assert_ne!(a, b);
}

#[test]
fn deep_merge_twice_changes_nothing_more() {
    let mut base = TomlValue::Table(table(vec![
        ("project", TomlValue::Table(table(vec![("name", text("old")), ("keep", TomlValue::Boolean(true))]))),
        ("list", TomlValue::Array(vec![TomlValue::Integer(1)])),
    ]));
    let delta = TomlValue::Table(table(vec![
        ("project", TomlValue::Table(table(vec![("name", text("new")), ("debug", TomlValue::Boolean(true))]))),
        ("list", TomlValue::Array(vec![TomlValue::Integer(2), TomlValue::Integer(3)])),
        ("limits", TomlValue::Table(table(vec![("max", TomlValue::Integer(100))]))),
    ]));
    deep_merge(&mut base, &delta);
    let once = TomlValue::Table(table(vec![
        (
            "project",
            TomlValue::Table(table(vec![
                ("name", text("new")),
                ("keep", TomlValue::Boolean(true)),
                ("debug", TomlValue::Boolean(true)),
            ])),
        ),
        ("list", TomlValue::Array(vec![TomlValue::Integer(2), TomlValue::Integer(3)])),
        ("limits", TomlValue::Table(table(vec![("max", TomlValue::Integer(100))]))),
    ]));
    assert_eq!(base, once);
    deep_merge(&mut base, &delta);
    assert_eq!(base, once);
}

#[test]
fn validation_names_the_first_datetime() {
    let extra = table(vec![(
        "when",
        TomlValue::Array(vec![
            TomlValue::Integer(1),
            TomlValue::Table(table(vec![("at", TomlValue::Datetime("1979-05-27T07:32:00Z".to_string()))])),
            TomlValue::Datetime("2001-01-01T00:00:00Z".to_string()),
        ]),
    )]);
    match validate_extra(&extra).unwrap_err() {
        NeuxcfgError::ValidationError(m) => {
            assert!(m.contains("year: 1979"));
            assert!(!m.contains("year: 2001"));
        }
        other => panic!("unexpected {:?}", other),
    }
}
