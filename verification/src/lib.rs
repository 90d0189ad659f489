//! Folder exclusion rules, the folder listing that honours them, and the
//! bookkeeping of the package manager, with their contracts proved by Verus.

pub mod text;
pub mod glob;
pub mod url;
pub mod pattern;
pub mod exclude;
pub mod files;
pub mod dependency;
pub mod package;
pub mod tally;
pub mod fetcher;
pub mod actor;
pub mod file;
pub mod maps;
pub mod sorter;
pub mod exclude_filter;
pub mod entries;
pub mod listing_laws;
