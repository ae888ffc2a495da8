//! A Git object database, index, diff, merge and wire-format library whose
//! behaviour is stated in contracts and proved.

pub mod bytemap;
pub mod bytes;
pub mod codec;
pub mod dir;
pub mod files;
pub mod idset;
pub mod notation;
pub mod object;
pub mod pack;
pub mod index;
pub mod diff;
pub mod odb;
pub mod refs;
pub mod worktree;
pub mod treewalk;
pub mod gitignore;
pub mod workdir;
pub mod merge;
pub mod blame;
pub mod transport;
pub mod command;
