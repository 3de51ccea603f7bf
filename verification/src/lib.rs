//! Secure per-project configuration management.
//!
//! A [`Neuxcfg`] keeps every project's configuration under one root
//! directory. For each operation it checks names and paths, decides which
//! error to report, and describes the file-system work as a list of
//! [`plan::FsOp`] steps that the caller carries out in order.

pub mod atomic;
pub mod backup;
pub mod error;
pub mod manager;
pub mod merge;
pub mod paths;
pub mod plan;
pub mod text;
pub mod types;
pub mod validate;
pub mod value;

pub use error::NeuxcfgError;
pub use manager::Neuxcfg;
pub use types::{CargoEnv, GlobalConfig, ProjectConfig, ProjectInfo};
pub use value::{Table, TomlValue};
