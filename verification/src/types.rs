use vstd::prelude::*;
use crate::error::NeuxcfgError;
use crate::merge::{deep_merge, merges_to, lemma_merge_empty_delta};
use crate::text::{split_char, split_on, string_views};
use crate::value::{
    TomlValue, Table, table_has, keys_distinct, same_value, copy_value, copy_table,
    is_well_formed_table, str_eq, lemma_lookup_at, lemma_wf_entry, lemma_wf_table_intro,
    lemma_wf_from_map, lemma_map_entry, lemma_same_value_trans,
};

verus! {

/// Metadata about the installation itself, written once as the global
/// configuration file.
#[derive(Debug, PartialEq)]
pub struct GlobalConfig {
    /// Package name.
    pub name: String,
    /// Crate version.
    pub version: String,
    /// Rust edition.
    pub edition: String,
    /// Short description.
    pub description: String,
    /// Authors, one per `:`-separated part of the authors variable.
    pub authors: Vec<String>,
    /// SPDX license identifier.
    pub license: String,
    /// Source repository URL.
    pub repository: String,
    /// Homepage URL.
    pub homepage: String,
    /// Documentation URL.
    pub documentation: String,
}

/// The Cargo package variables that [`GlobalConfig::from_cargo`] reads, each
/// absent when the variable is unset or not valid Unicode.
#[derive(Debug, PartialEq)]
pub struct CargoEnv {
    /// `CARGO_PKG_NAME`
    pub pkg_name: Option<String>,
    /// `CARGO_PKG_VERSION`
    pub pkg_version: Option<String>,
    /// `CARGO_EDITION`
    pub edition: Option<String>,
    /// `CARGO_PKG_DESCRIPTION`
    pub pkg_description: Option<String>,
    /// `CARGO_PKG_AUTHORS`
    pub pkg_authors: Option<String>,
    /// `CARGO_PKG_LICENSE`
    pub pkg_license: Option<String>,
    /// `CARGO_PKG_REPOSITORY`
    pub pkg_repository: Option<String>,
    /// `CARGO_PKG_HOMEPAGE`
    pub pkg_homepage: Option<String>,
    /// `CARGO_PKG_DOCUMENTATION`
    pub pkg_documentation: Option<String>,
}

/// The variable's value when it is set, else the default.
pub open spec fn or_default(v: Option<String>, default: Seq<char>) -> Seq<char> {
    match v {
        Some(s) => s@,
        None => default,
    }
}

fn env_or_default(v: &Option<String>, default: &str) -> (r: String)
    ensures
        r@ == or_default(*v, default@),
{
    match v {
        Some(s) => s.clone(),
        None => default.to_owned(),
    }
}

impl GlobalConfig {
    /// Builds the global configuration from the Cargo package variables,
    /// falling back to the library's own metadata for each one that is unset.
    /// The authors variable is split on `:`.
    pub fn from_cargo(env: &CargoEnv) -> (r: GlobalConfig)
        ensures
            r.name@ == or_default(env.pkg_name, "neuxcfg"@),
            r.version@ == or_default(env.pkg_version, "0.3.0"@),
            r.edition@ == or_default(env.edition, "2024"@),
            r.description@ == or_default(
                env.pkg_description,
                "A production\u{2011}ready library for secure configuration management."@,
            ),
            string_views(r.authors@) == split_on(
                or_default(env.pkg_authors, "neuxdotdev <neuxdev1@gmail.com>"@),
                ':',
            ),
            r.license@ == or_default(env.pkg_license, "MIT"@),
            r.repository@ == or_default(env.pkg_repository, "https://github.com/neuxdotdev/neuxcfg"@),
            r.homepage@ == or_default(env.pkg_homepage, ""@),
            r.documentation@ == or_default(env.pkg_documentation, ""@),
    {
        let authors = env_or_default(&env.pkg_authors, "neuxdotdev <neuxdev1@gmail.com>");
        GlobalConfig {
            name: env_or_default(&env.pkg_name, "neuxcfg"),
            version: env_or_default(&env.pkg_version, "0.3.0"),
            edition: env_or_default(&env.edition, "2024"),
            description: env_or_default(
                &env.pkg_description,
                "A production\u{2011}ready library for secure configuration management.",
            ),
            authors: split_char(authors.as_str(), ':'),
            license: env_or_default(&env.pkg_license, "MIT"),
            repository: env_or_default(&env.pkg_repository, "https://github.com/neuxdotdev/neuxcfg"),
            homepage: env_or_default(&env.pkg_homepage, ""),
            documentation: env_or_default(&env.pkg_documentation, ""),
        }
    }
}

/// The configuration of one project.
#[derive(Debug, PartialEq)]
pub struct ProjectConfig {
    /// Metadata and extra fields of the project.
    pub project: ProjectInfo,
}

/// Core project metadata and custom extra fields.
///
/// `name` and `path` are mandatory; further fields live in `extra` and are
/// written beside them in the `[project]` table.
#[derive(Debug, PartialEq)]
pub struct ProjectInfo {
    /// Project name.
    pub name: String,
    /// Filesystem path associated with the project.
    pub path: String,
    /// Extra fields.
    pub extra: Table,
}

/// The key of the project table in a configuration document.
pub open spec fn project_key() -> Seq<char> {
    "project"@
}

/// The key of the project name.
pub open spec fn name_key() -> Seq<char> {
    "name"@
}

/// The key of the project path.
pub open spec fn path_key() -> Seq<char> {
    "path"@
}

/// Two maps have the same keys and, key by key, the same values.
pub open spec fn same_map(a: Map<Seq<char>, TomlValue>, b: Map<Seq<char>, TomlValue>) -> bool {
    &&& a.dom() == b.dom()
    &&& forall|k: Seq<char>| #[trigger] a.contains_key(k) ==> same_value(a[k], b[k])
}

/// `v` is a text value holding `s`.
pub open spec fn is_text(v: TomlValue, s: Seq<char>) -> bool {
    v is Text && v->Text_0@ == s
}

impl ProjectConfig {
    /// The extra fields hold each key once and are themselves well-formed.
    pub open spec fn wf(&self) -> bool {
        TomlValue::Table(self.project.extra).wf()
    }

    /// Whether the extra fields hold each key once, at every depth.
    pub fn is_well_formed(&self) -> (r: bool)
        ensures
            r == self.wf(),
    {
        is_well_formed_table(&self.project.extra)
    }

    /// Creates a configuration with the given name and path and no extra fields.
    pub fn new(name: String, path: String) -> (r: ProjectConfig)
        ensures
            r.project.name == name,
            r.project.path == path,
            r.project.extra.entries@.len() == 0,
            r.wf(),
    {
        let r = ProjectConfig { project: ProjectInfo { name, path, extra: Table::new() } };
        proof {
            lemma_wf_table_intro(TomlValue::Table(r.project.extra));
        }
        r
    }
}

/// `doc` is the TOML document that `c` is written as: a table whose only key
/// is `project`, holding a table with `name` and `path` and every extra field;
/// an extra field named like one of the two takes its place.
pub open spec fn is_document_of(doc: TomlValue, c: ProjectConfig) -> bool {
    &&& doc is Table
    &&& doc.wf()
    &&& doc->Table_0.map().dom() == set![project_key()]
    &&& doc->Table_0.map()[project_key()] is Table
    &&& {
        let pm = doc->Table_0.map()[project_key()]->Table_0.map();
        let em = c.project.extra.map();
        &&& pm.dom() == em.dom().insert(name_key()).insert(path_key())
        &&& forall|k: Seq<char>| #[trigger] em.contains_key(k) ==> same_value(pm[k], em[k])
        &&& !em.contains_key(name_key()) ==> is_text(pm[name_key()], c.project.name@)
        &&& !em.contains_key(path_key()) ==> is_text(pm[path_key()], c.project.path@)
    }
}

/// `doc` has the shape of a configuration document: a table with a `project`
/// table that holds text under `name` and under `path`.
pub open spec fn is_readable(doc: TomlValue) -> bool {
    &&& doc is Table
    &&& doc->Table_0.map().contains_key(project_key())
    &&& doc->Table_0.map()[project_key()] is Table
    &&& {
        let pm = doc->Table_0.map()[project_key()]->Table_0.map();
        &&& pm.contains_key(name_key())
        &&& pm[name_key()] is Text
        &&& pm.contains_key(path_key())
        &&& pm[path_key()] is Text
    }
}

/// `c` is what the readable document `doc` reads as: its name and path, and
/// every other entry of the project table as an extra field.
pub open spec fn reads_as(doc: TomlValue, c: ProjectConfig) -> bool {
    let pm = doc->Table_0.map()[project_key()]->Table_0.map();
    &&& is_text(pm[name_key()], c.project.name@)
    &&& is_text(pm[path_key()], c.project.path@)
    &&& same_map(c.project.extra.map(), pm.remove(name_key()).remove(path_key()))
    &&& c.wf()
}

impl ProjectConfig {
    /// Writes the configuration as a TOML document.
    pub fn to_document(&self) -> (r: TomlValue)
        requires
            self.wf(),
        ensures
            is_document_of(r, *self),
    {
        let ghost e = self.project.extra.entries@;
        let ghost em = self.project.extra.map();
        proof {
            if e.len() > 0 {
                lemma_wf_entry(TomlValue::Table(self.project.extra), 0);
            }
            reveal_strlit("name");
            reveal_strlit("path");
            assert(name_key() != path_key()) by {
                assert(name_key()[0] != path_key()[0]);
            }
        }
        let mut inner = Table::new();
        let name_k = String::from_str("name");
        let path_k = String::from_str("path");
        inner.insert(name_k, TomlValue::Text(self.project.name.clone()));
        inner.insert(path_k, TomlValue::Text(self.project.path.clone()));
        let mut i: usize = 0;
        while i < self.project.extra.entries.len()
            invariant
                e == self.project.extra.entries@,
                em == self.project.extra.map(),
                self.wf(),
                keys_distinct(e),
                0 <= i <= e.len(),
                keys_distinct(inner.entries@),
                forall|k: Seq<char>| #[trigger] inner.map().contains_key(k) ==> inner.map()[k].wf(),
                forall|k: Seq<char>|
                    #[trigger] inner.map().contains_key(k) <==> (k == name_key() || k == path_key()
                        || exists|j: int| 0 <= j < i && #[trigger] e[j].0@ == k),
                forall|j: int|
                    0 <= j < i ==> #[trigger] inner.map().contains_key(e[j].0@) && same_value(
                        inner.map()[e[j].0@],
                        e[j].1,
                    ),
                (forall|j: int| 0 <= j < i ==> #[trigger] e[j].0@ != name_key()) ==> is_text(
                    inner.map()[name_key()],
                    self.project.name@,
                ),
                (forall|j: int| 0 <= j < i ==> #[trigger] e[j].0@ != path_key()) ==> is_text(
                    inner.map()[path_key()],
                    self.project.path@,
                ),
            decreases e.len() - i,
        {
            proof {
                lemma_wf_entry(TomlValue::Table(self.project.extra), i as int);
            }
            let k = self.project.extra.entries[i].0.clone();
            let c = copy_value(&self.project.extra.entries[i].1);
            let ghost before = inner.map();
            inner.insert(k, c);
            proof {
                assert(inner.map() == before.insert(e[i as int].0@, c));
                assert forall|j: int| 0 <= j < i + 1 implies #[trigger] inner.map().contains_key(
                    e[j].0@,
                ) && same_value(inner.map()[e[j].0@], e[j].1) by {
                    if j < i {
                        assert(e[j].0@ != e[i as int].0@);
                    }
                }
                assert forall|kk: Seq<char>| #[trigger] inner.map().contains_key(kk) <==> (kk
                    == name_key() || kk == path_key() || exists|j: int|
                    0 <= j < i + 1 && #[trigger] e[j].0@ == kk) by {
                    if kk == e[i as int].0@ {
                        assert(e[i as int].0@ == kk);
                    }
                    if exists|j: int| 0 <= j < i + 1 && #[trigger] e[j].0@ == kk {
                        let j = choose|j: int| 0 <= j < i + 1 && #[trigger] e[j].0@ == kk;
                        if j < i {
                            assert(before.contains_key(kk));
                        }
                    }
                }
            }
            i = i + 1;
        }
        let ghost pm = inner.map();
        proof {
            assert(pm.dom() =~= em.dom().insert(name_key()).insert(path_key())) by {
                assert forall|k: Seq<char>| pm.contains_key(k) <==> em.dom().insert(
                    name_key(),
                ).insert(path_key()).contains(k) by {
                    if em.contains_key(k) {
                        let j = lemma_map_entry(self.project.extra, k);
                        assert(e[j].0@ == k);
                    }
                    if exists|j: int| 0 <= j < e.len() && #[trigger] e[j].0@ == k {
                        let j = choose|j: int| 0 <= j < e.len() && #[trigger] e[j].0@ == k;
                        assert(table_has(e, k));
                    }
                }
            }
            assert forall|k: Seq<char>| #[trigger] em.contains_key(k) implies same_value(
                pm[k],
                em[k],
            ) by {
                let j = lemma_map_entry(self.project.extra, k);
                assert(pm.contains_key(e[j].0@));
            }
            if !em.contains_key(name_key()) {
                assert forall|j: int| 0 <= j < e.len() implies #[trigger] e[j].0@ != name_key() by {
                    if e[j].0@ == name_key() {
                        assert(table_has(e, name_key()));
                    }
                }
            }
            if !em.contains_key(path_key()) {
                assert forall|j: int| 0 <= j < e.len() implies #[trigger] e[j].0@ != path_key() by {
                    if e[j].0@ == path_key() {
                        assert(table_has(e, path_key()));
                    }
                }
            }
            lemma_wf_from_map(inner);
        }
        let mut doc = Table::new();
        let project_k = String::from_str("project");
        doc.insert(project_k, TomlValue::Table(inner));
        proof {
            assert(doc.map().dom() =~= set![project_key()]);
            lemma_wf_from_map(doc);
        }
        TomlValue::Table(doc)
    }
}

fn parse_error(msg: &str) -> (r: NeuxcfgError)
    ensures
        r is TomlParse,
{
    NeuxcfgError::TomlParse(msg.to_owned())
}

impl ProjectConfig {
    /// Reads a configuration back from a TOML document: the `project` table
    /// must hold text under `name` and `path`; its other entries become the
    /// extra fields, and other top-level keys are ignored.
    pub fn from_document(doc: &TomlValue) -> (r: Result<ProjectConfig, NeuxcfgError>)
        requires
            doc.wf(),
        ensures
            match r {
                Ok(c) => is_readable(*doc) && reads_as(*doc, c),
                Err(e) => !is_readable(*doc) && e is TomlParse,
            },
    {
        proof {
            reveal_strlit("name");
            reveal_strlit("path");
            assert(name_key() != path_key()) by {
                assert(name_key()[0] != path_key()[0]);
            }
        }
        let t = match doc {
            TomlValue::Table(t) => t,
            _ => {
                return Err(parse_error("invalid type: expected a table"));
            },
        };
        proof {
            if t.entries@.len() > 0 {
                lemma_wf_entry(*doc, 0);
            }
        }
        let pv = match t.get("project") {
            Some(v) => v,
            None => {
                return Err(parse_error("missing field `project`"));
            },
        };
        proof {
            let j = lemma_map_entry(*t, project_key());
            lemma_wf_entry(*doc, j);
        }
        let p = match pv {
            TomlValue::Table(p) => p,
            _ => {
                return Err(parse_error("invalid type: expected a table for `project`"));
            },
        };
        proof {
            if p.entries@.len() > 0 {
                lemma_wf_entry(*pv, 0);
            }
        }
        let name = match p.get("name") {
            Some(TomlValue::Text(n)) => n.clone(),
            Some(_) => {
                return Err(parse_error("invalid type: expected a string for `name`"));
            },
            None => {
                return Err(parse_error("missing field `name`"));
            },
        };
        let path = match p.get("path") {
            Some(TomlValue::Text(q)) => q.clone(),
            Some(_) => {
                return Err(parse_error("invalid type: expected a string for `path`"));
            },
            None => {
                return Err(parse_error("missing field `path`"));
            },
        };
        let ghost pe = p.entries@;
        let ghost pm = p.map();
        let mut extra: Vec<(String, TomlValue)> = Vec::new();
        let mut i: usize = 0;
        while i < p.entries.len()
            invariant
                pe == p.entries@,
                pm == p.map(),
                keys_distinct(pe),
                TomlValue::Table(*p).wf(),
                0 <= i <= pe.len(),
                keys_distinct(extra@),
                forall|a: int|
                    0 <= a < extra@.len() ==> {
                        let k = (#[trigger] extra@[a]).0@;
                        &&& k != name_key()
                        &&& k != path_key()
                        &&& pm.contains_key(k)
                        &&& same_value(extra@[a].1, pm[k])
                        &&& extra@[a].1.wf()
                        &&& table_has(pe.take(i as int), k)
                    },
                forall|j: int|
                    0 <= j < i ==> (#[trigger] pe[j]).0@ != name_key() && pe[j].0@ != path_key()
                        ==> table_has(extra@, pe[j].0@),
            decreases pe.len() - i,
        {
            let key = &p.entries[i].0;
            let skip = str_eq(key.as_str(), "name") || str_eq(key.as_str(), "path");
            let ghost before = extra@;
            proof {
                lemma_lookup_at(pe, i as int);
                lemma_wf_entry(TomlValue::Table(*p), i as int);
                assert forall|a: int| 0 <= a < before.len() implies #[trigger] before[a].0@ != pe[i as int].0@ && table_has(pe.take(i as int + 1), before[a].0@) by {
                    let k = before[a].0@;
                    let j = choose|j: int| 0 <= j < pe.take(i as int).len() && #[trigger] pe.take(i as int)[j].0@ == k;
                    assert(pe[j].0@ == k);
                    assert(pe.take(i as int + 1)[j].0@ == k);
                }
            }
            if !skip {
                let c = copy_value(&p.entries[i].1);
                extra.push((key.clone(), c));
                proof {
                    assert forall|a: int, b: int| 0 <= a < b < extra@.len() implies #[trigger] extra@[a].0@
                        != #[trigger] extra@[b].0@ by {
                        if b < before.len() {
                            assert(extra@[a] == before[a]);
                            assert(extra@[b] == before[b]);
                        } else {
                            assert(extra@[a] == before[a]);
                        }
                    }
                    assert(pe.take(i as int + 1)[i as int].0@ == pe[i as int].0@);
                    assert forall|a: int| 0 <= a < extra@.len() implies {
                        let k = (#[trigger] extra@[a]).0@;
                        &&& k != name_key()
                        &&& k != path_key()
                        &&& pm.contains_key(k)
                        &&& same_value(extra@[a].1, pm[k])
                        &&& extra@[a].1.wf()
                        &&& table_has(pe.take(i as int + 1), k)
                    } by {
                        if a < before.len() {
                            assert(extra@[a] == before[a]);
                        }
                    }
                    assert forall|j: int| 0 <= j < i + 1 && (#[trigger] pe[j]).0@ != name_key() && pe[j].0@ != path_key() implies table_has(extra@, pe[j].0@) by {
                        if j < i {
                            let a = choose|a: int| 0 <= a < before.len() && #[trigger] before[a].0@ == pe[j].0@;
                            assert(extra@[a] == before[a]);
                        } else {
                            assert(extra@[extra@.len() - 1].0@ == pe[j].0@);
                        }
                    }
                }
            }
            i = i + 1;
        }
        let extra_table = Table { entries: extra };
        proof {
            lemma_wf_table_intro(TomlValue::Table(extra_table));
            let em = extra_table.map();
            let want = pm.remove(name_key()).remove(path_key());
            assert forall|k: Seq<char>| em.contains_key(k) <==> want.contains_key(k) by {
                if em.contains_key(k) {
                    let a = lemma_map_entry(extra_table, k);
                }
                if want.contains_key(k) {
                    let j = lemma_map_entry(*p, k);
                    assert(pe[j].0@ == k);
                }
            }
            assert(em.dom() =~= want.dom());
            assert forall|k: Seq<char>| #[trigger] em.contains_key(k) implies same_value(em[k], want[k]) by {
                let a = lemma_map_entry(extra_table, k);
            }
        }
        Ok(ProjectConfig { project: ProjectInfo { name, path, extra: extra_table } })
    }

    /// Applies a partial update: the configuration's document with `delta`
    /// deep-merged into it, read back as a configuration.
    ///
    /// A merged document that is not a table cannot be written as TOML; one of
    /// the wrong shape cannot be read back.
    pub fn apply_delta(&self, delta: &TomlValue) -> (r: Result<ProjectConfig, NeuxcfgError>)
        requires
            self.wf(),
            delta.wf(),
        ensures
            exists|doc: TomlValue, merged: TomlValue|
                {
                    &&& is_document_of(doc, *self)
                    &&& merges_to(doc, *delta, merged)
                    &&& merged.wf()
                    &&& match r {
                        Ok(c) => is_readable(merged) && reads_as(merged, c),
                        Err(e) => if merged is Table {
                            !is_readable(merged) && e is TomlParse
                        } else {
                            e is TomlSerialize && e->TomlSerialize_0@ == "unsupported rust type"@
                        },
                    }
                },
    {
        let mut doc = self.to_document();
        let ghost doc0 = doc;
        deep_merge(&mut doc, delta);
        let is_table = match &doc {
            TomlValue::Table(_) => true,
            _ => false,
        };
        if !is_table {
            let r = Err(NeuxcfgError::TomlSerialize(String::from_str("unsupported rust type")));
            proof {
                assert(is_document_of(doc0, *self) && merges_to(doc0, *delta, doc));
            }
            return r;
        }
        let r = ProjectConfig::from_document(&doc);
        proof {
            assert(is_document_of(doc0, *self) && merges_to(doc0, *delta, doc));
        }
        r
    }
}

/// Two configurations have the same name, path and extra fields.
pub open spec fn same_config(a: ProjectConfig, b: ProjectConfig) -> bool {
    &&& a.project.name@ == b.project.name@
    &&& a.project.path@ == b.project.path@
    &&& same_value(TomlValue::Table(a.project.extra), TomlValue::Table(b.project.extra))
}

impl ProjectConfig {
    /// Copies the configuration.
    pub fn duplicate(&self) -> (r: ProjectConfig)
        ensures
            same_config(r, *self),
            self.wf() ==> r.wf(),
    {
        ProjectConfig {
            project: ProjectInfo {
                name: self.project.name.clone(),
                path: self.project.path.clone(),
                extra: copy_table(&self.project.extra),
            },
        }
    }
}

/// Two configurations hold the same settings: name, path, and extra fields
/// that map each key to the same value.
pub open spec fn same_settings(a: ProjectConfig, b: ProjectConfig) -> bool {
    &&& a.project.name@ == b.project.name@
    &&& a.project.path@ == b.project.path@
    &&& same_map(a.project.extra.map(), b.project.extra.map())
}

/// The extra fields use neither `name` nor `path` as a key.
pub open spec fn extra_keys_free(c: ProjectConfig) -> bool {
    &&& !c.project.extra.map().contains_key(name_key())
    &&& !c.project.extra.map().contains_key(path_key())
}

/// Reading back the document of a configuration gives the same settings.
pub proof fn lemma_document_round_trip(c: ProjectConfig, doc: TomlValue, back: ProjectConfig)
    requires
        extra_keys_free(c),
        is_document_of(doc, c),
    ensures
        is_readable(doc),
        reads_as(doc, back) ==> same_settings(back, c),
{
    reveal_strlit("name");
    reveal_strlit("path");
    assert(name_key() != path_key()) by {
        assert(name_key()[0] != path_key()[0]);
    }
    let pm = doc->Table_0.map()[project_key()]->Table_0.map();
    let em = c.project.extra.map();
    assert(doc->Table_0.map().contains_key(project_key()));
    assert(pm.contains_key(name_key()));
    assert(pm.contains_key(path_key()));
    if reads_as(doc, back) {
        let bm = back.project.extra.map();
        let want = pm.remove(name_key()).remove(path_key());
        assert(want.dom() =~= em.dom());
        assert forall|k: Seq<char>| #[trigger] bm.contains_key(k) implies same_value(bm[k], em[k]) by {
            assert(want.contains_key(k));
            assert(em.contains_key(k));
            lemma_same_value_trans(bm[k], want[k], em[k]);
        }
    }
}

/// A partial update with an empty delta keeps every setting of the
/// configuration.
pub proof fn lemma_empty_delta_keeps_settings(
    c: ProjectConfig,
    doc: TomlValue,
    delta: TomlValue,
    merged: TomlValue,
    back: ProjectConfig,
)
    requires
        extra_keys_free(c),
        is_document_of(doc, c),
        delta is Table,
        delta->Table_0.entries@.len() == 0,
        merges_to(doc, delta, merged),
    ensures
        is_readable(merged),
        reads_as(merged, back) ==> same_settings(back, c),
{
    lemma_merge_empty_delta(doc, delta, merged);
    lemma_document_round_trip(c, doc, back);
    assert(merged->Table_0.map() == doc->Table_0.map());
}

} // verus!
