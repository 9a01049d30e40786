//! Synchronisation of an instance tree with a file system: which middleware
//! turns a path into instances, how a snapshot of instances becomes a patch of
//! an existing tree, and how a changed tree is written back to files.

pub mod dom;
pub mod fs_snapshot;
pub mod glob;
pub mod instance;
pub mod json_model;
pub mod middleware;
pub mod model_laws;
pub mod name_map;
pub mod patch_apply;
pub mod patch_compute;
pub mod patch_laws;
pub mod patch_meaning;
pub mod patch_reach;
pub mod paths;
pub mod plain;
pub mod reading_laws;
pub mod reflection;
pub mod sync_rule;
pub mod syncback;
pub mod syncback_laws;
pub mod syncback_snapshot;
pub mod text;
pub mod tree;
pub mod txt;
pub mod unresolved;
pub mod variant;
pub mod variant_eq;
pub mod vfs_snapshot;
pub mod view_laws;
