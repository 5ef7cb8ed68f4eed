//! A minimal archive format: one fixed header, then one record per file.
//!
//! The library holds the format and the decisions of the three
//! pipelines: packing files into an archive, listing an archive, and
//! unpacking it. Streams are byte buffers here, and a directory tree is
//! something the caller is asked about: opening files and walking the
//! file system is left to the caller, which hands over plain values.
//!
//! - `wire`, `header`, `entry`, `archive`: the format, from the integers
//!   up to a whole archive held in memory, with reading and writing.
//! - `stream`: reading an archive piece by piece, for a caller that
//!   holds a stream.
//! - `compression`: the two ways a payload is stored.
//! - `path`, `naming`, `walk`, `collect`, `select`: finding the files to
//!   pack, naming them, and putting them in order.
//! - `pack`, `unpack`: writing an archive file by file or in one go, and
//!   restoring files from entries.
//! - `cli`: the command line.
//! - `tree`, `run`, `laws`: what holds of the parts together.

pub mod archive;
pub mod cli;
pub mod collect;
pub mod compression;
pub mod entry;
pub mod error;
pub mod file;
pub mod header;
pub mod laws;
pub mod naming;
pub mod pack;
pub mod path;
pub mod run;
pub mod select;
pub mod stream;
pub mod text;
pub mod tree;
pub mod unpack;
pub mod walk;
pub mod wire;
