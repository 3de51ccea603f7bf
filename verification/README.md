# neuxcfg

Per-project configuration management under one root directory, verified
with Verus.

- `src/` is the verified library. It checks project names, resolves project
  directories (rejecting any that escape the root), validates extra fields,
  deep-merges TOML values, maps configurations to and from TOML documents,
  and describes every file-system operation as a plan of `FsOp` steps.
- `app/` carries those plans out on the real file system: directory and
  file I/O, TOML text via `toml`/`serde`, advisory locks via `fs2`, and
  Cargo environment variables.
- `tests/` exercises the library's functions on concrete values.

TOML values are modelled in `src/value.rs` by `TomlValue`, whose tables are
`Table`: a `Vec` of key/value pairs with the invariant that no key occurs
twice. `toml::map::Map` holds only `toml::Value`s, whose contents verified
code cannot read, and a `String`-keyed `HashMap` gives contracts nothing to
prove with, so the table is the library's own.

`src/plan.rs` also gives plans a meaning: `step_runs` and `plan_runs` say
what each step does to a model file system (paths mapped to directories and
files with their permission bits), and laws such as
`lemma_init_idempotent` are stated over it.
