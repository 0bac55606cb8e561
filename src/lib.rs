//! A catalog of audiobook files: text normalization of tag values, a path-keyed
//! staging store with a resolve-status lifecycle, reconciliation against a walk of
//! the disk, grouping of staged files into books, and user-driven reorganization.
pub mod status;
pub mod text;
pub mod clean;
pub mod order;
pub mod dramatized;
pub mod model;
pub mod meta;
pub mod keep;
pub mod catalog;
pub mod reconcile;
pub mod changes;
pub mod layout;
pub mod store;
