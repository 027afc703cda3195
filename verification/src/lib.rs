//! Picks one file at random from those under a directory.
//!
//! A walk gathers the regular files of a directory tree, in the order in which
//! the directories list them, and keeps those whose extension the filter
//! admits. A draw then takes one of them, each with the same chance.
//!
//! The library reads no file system itself. Whoever runs a [`walk::Walk`]
//! lists each directory that the walk asks for and hands the listing back; a
//! [`tree::Tree`] held in memory is walked in one call.

pub mod collect;
pub mod entry;
pub mod filter;
pub mod laws;
pub mod select;
pub mod tree;
pub mod walk;

pub use crate::collect::get_files;
pub use crate::entry::{EntryKind, Listing, PathEntry, WalkError};
pub use crate::filter::{allowd_extensions_from_args, extension_of, is_admitted};
pub use crate::select::{pick_one, random_pick};
pub use crate::tree::Tree;
pub use crate::walk::Walk;
