//! Discovery and selection of locally available npm-style packages.
//!
//! The library locates package manifests under registered source roots,
//! models package identity (name + originating source), computes the set
//! difference used to offer candidates for selection, and keeps the
//! selected packages in a lockfile whose on-disk text it serializes and
//! parses itself.  All file, terminal and subprocess work lives in the
//! surrounding application; the functions here are pure logic with
//! verified contracts, plus a small number of trusted wrappers around
//! the outside crates that walk directories, match paths and parse
//! manifests.

pub mod codec;
pub mod config;
pub mod header;
pub mod item;
pub mod item_display;
pub mod item_formatter;
pub mod iterators;
pub mod lockfile;
pub mod manifest;
pub mod ops;
pub mod package;
pub mod select;
pub mod selection;
pub mod source;
pub mod strutil;
pub mod sync;
pub mod walker;
pub mod workspace;
