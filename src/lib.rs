//! Structured difference between two snapshots of a hierarchical registry: a tree of
//! keys, each holding named, typed values. Two trees are compared key by key and the
//! result is a patch with at most one entry per key path.

pub mod combine;
pub mod diff;
pub mod laws;
pub mod order;
pub mod pairs;
pub mod path;
pub mod registry;
pub mod value;

pub use crate::combine::{combine, Identified};
pub use crate::diff::{diff_snapshots, Diff, Operation, Patch, PatchEntry};
pub use crate::path::KeyPath;
pub use crate::registry::{Hive, Key, Registry};
pub use crate::value::{Data, Value, ValueName};
